//! When construction succeeds, held against exact arithmetic.

use crate::arithmetic::Arithmetic;
use crate::design::{is_long_enough, lemma_long_enough};
use crate::error::ResamplerError;
use crate::kernel::{
    aligned_len, exact_band, general_band, is_kaiser_len, law_aligned_len, law_odd_len, odd_len,
    DESIGN_STOPBAND_DB,
};
use crate::polyphase::{is_route, needs, PolyphaseResampler, Route};
use crate::ratio::law_reduced_is_lowest_terms;
use crate::reading::{exact, Reading};
use vstd::arithmetic::div_mod::lemma_mod_sub_multiples_vanish;
use vstd::prelude::*;

verus! {

/// Construction is total up to the cap: between nonzero unequal rates it succeeds
/// exactly when some prototype of at most `4_194_304` taps is long enough, of a
/// length that fits the engine: one more than a multiple of `2 * m` on the exact
/// route, odd on the general one. Otherwise it rejects the rate pair by name.
pub proof fn law_construction_is_total_up_to_the_cap<A: Arithmetic>(
    e: Reading<A::Real, A::Sample>,
    in_rate: u32,
    out_rate: u32,
    route: Route,
    taps: nat,
    r: Result<PolyphaseResampler<A>, ResamplerError>,
)
    requires
        exact::<A>(e),
        in_rate > 0,
        out_rate > 0,
        is_route(in_rate, out_rate, route),
        needs::<A>(in_rate, out_rate, route, taps),
        PolyphaseResampler::<A>::outcome(in_rate, out_rate, route, taps, r),
    ensures
        r is Err ==> r == Err::<PolyphaseResampler<A>, _>(
            ResamplerError::RatePairUnsupported { in_rate, out_rate },
        ),
        route matches Route::Exact { l, m } ==> (r is Ok <==> exists|t: nat|
            t <= 4_194_304 && (t - 1) % (2 * m as int) == 0 && #[trigger] is_long_enough(
                e.pi,
                in_rate,
                out_rate,
                m as real * out_rate as real,
                t,
            )),
        route is General ==> (r is Ok <==> exists|t: nat|
            t <= 4_194_304 && t % 2 == 1 && #[trigger] is_long_enough(
                e.pi,
                in_rate,
                out_rate,
                512 as real * in_rate as real,
                t,
            )),
{
    match route {
        Route::Exact { l, m } => {
            law_reduced_is_lowest_terms(in_rate as nat, out_rate as nat, l as nat, m as nat);
            let op = m as real * out_rate as real;
            let band = exact_band(in_rate, out_rate, m, DESIGN_STOPBAND_DB);
            let kaiser = choose|kaiser: u64| #[trigger]
                is_kaiser_len::<A>(band, kaiser) && taps == aligned_len(kaiser as nat, m as nat);
            law_aligned_len(kaiser as nat, m as nat);
            if taps <= 4_194_304 {
                lemma_long_enough::<A>(e, band, in_rate, out_rate, kaiser, taps);
                assert(is_long_enough(e.pi, in_rate, out_rate, op, taps));
            }
            assert forall|t: nat|
                t <= 4_194_304 && (t - 1) % (2 * m as int) == 0 && #[trigger] is_long_enough(
                    e.pi,
                    in_rate,
                    out_rate,
                    op,
                    t,
                ) implies taps <= 4_194_304 by {
                lemma_long_enough::<A>(e, band, in_rate, out_rate, kaiser, t);
            }
        },
        Route::General { l, m } => {
            let op = 512 as real * in_rate as real;
            let band = general_band(in_rate, out_rate, 512, DESIGN_STOPBAND_DB);
            let kaiser = choose|kaiser: u64| #[trigger]
                is_kaiser_len::<A>(band, kaiser) && taps == odd_len(kaiser as nat);
            law_odd_len(kaiser as nat);
            if taps <= 4_194_304 {
                lemma_long_enough::<A>(e, band, in_rate, out_rate, kaiser, taps);
                assert(is_long_enough(e.pi, in_rate, out_rate, op, taps));
            }
            assert forall|t: nat|
                t <= 4_194_304 && t % 2 == 1 && #[trigger] is_long_enough(
                    e.pi,
                    in_rate,
                    out_rate,
                    op,
                    t,
                ) implies taps <= 4_194_304 by {
                lemma_long_enough::<A>(e, band, in_rate, out_rate, kaiser, t);
            }
        },
        Route::Identity => {},
    }
}

/// The prototype that is built is the shortest that is long enough: a step of
/// `2 * m` taps less on the exact route, of two on the general one, falls short.
pub proof fn law_length_is_least<A: Arithmetic>(
    e: Reading<A::Real, A::Sample>,
    in_rate: u32,
    out_rate: u32,
    route: Route,
    taps: nat,
)
    requires
        exact::<A>(e),
        in_rate > 0,
        out_rate > 0,
        is_route(in_rate, out_rate, route),
        needs::<A>(in_rate, out_rate, route, taps),
        taps <= 4_194_304,
    ensures
        route matches Route::Exact { l, m } ==> ({
            let op = m as real * out_rate as real;
            &&& (taps - 1) % (2 * m as int) == 0
            &&& is_long_enough(e.pi, in_rate, out_rate, op, taps)
            &&& taps > 2 * m ==> !is_long_enough(
                e.pi,
                in_rate,
                out_rate,
                op,
                (taps - 2 * m) as nat,
            )
        }),
        route is General ==> ({
            let op = 512 as real * in_rate as real;
            &&& taps % 2 == 1
            &&& is_long_enough(e.pi, in_rate, out_rate, op, taps)
            &&& taps > 2 ==> !is_long_enough(e.pi, in_rate, out_rate, op, (taps - 2) as nat)
        }),
{
    match route {
        Route::Exact { l, m } => {
            law_reduced_is_lowest_terms(in_rate as nat, out_rate as nat, l as nat, m as nat);
            let band = exact_band(in_rate, out_rate, m, DESIGN_STOPBAND_DB);
            let kaiser = choose|kaiser: u64| #[trigger]
                is_kaiser_len::<A>(band, kaiser) && taps == aligned_len(kaiser as nat, m as nat);
            law_aligned_len(kaiser as nat, m as nat);
            lemma_long_enough::<A>(e, band, in_rate, out_rate, kaiser, taps);
            if taps > 2 * m {
                let less = (taps - 2 * m) as nat;
                lemma_mod_sub_multiples_vanish(taps - 1, 2 * m as int);
                assert((less - 1) % (2 * m as int) == 0);
                lemma_long_enough::<A>(e, band, in_rate, out_rate, kaiser, less);
            }
        },
        Route::General { l, m } => {
            let band = general_band(in_rate, out_rate, 512, DESIGN_STOPBAND_DB);
            let kaiser = choose|kaiser: u64| #[trigger]
                is_kaiser_len::<A>(band, kaiser) && taps == odd_len(kaiser as nat);
            law_odd_len(kaiser as nat);
            lemma_long_enough::<A>(e, band, in_rate, out_rate, kaiser, taps);
            if taps > 2 {
                let less = (taps - 2) as nat;
                assert(less % 2 == 1);
                lemma_long_enough::<A>(e, band, in_rate, out_rate, kaiser, less);
            }
        },
        Route::Identity => {},
    }
}

}
