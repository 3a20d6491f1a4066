//! What the chain of a prompt has in common for all accounts.

use vstd::prelude::*;

use crate::chain_laws;
use crate::identity_laws;
use crate::prompt;
use crate::prompt::StepView;
use crate::request::RequestView;
use crate::segments;
use crate::turn_laws;
use crate::usage;

verus! {

/// Whether two fingerprints are those of beginnings of two texts with the same end behind
/// different seeds.
spec fn same_end(
    hash_a: u64,
    hash_b: u64,
    seed_a: Seq<char>,
    seed_b: Seq<char>,
    a: Seq<char>,
    b: Seq<char>,
) -> bool {
    exists|t: Seq<char>|
        hash_a == #[trigger] segments::fingerprint(seed_a + t) && hash_b == segments::fingerprint(
            seed_b + t,
        ) && (seed_a + t).is_prefix_of(a) && (seed_b + t).is_prefix_of(b)
}

proof fn lemma_same_end_grows(
    hash_a: u64,
    hash_b: u64,
    seed_a: Seq<char>,
    seed_b: Seq<char>,
    a: Seq<char>,
    b: Seq<char>,
    x: Seq<char>,
)
    requires
        same_end(hash_a, hash_b, seed_a, seed_b, a, b),
    ensures
        same_end(hash_a, hash_b, seed_a, seed_b, a + x, b + x),
{
    let t = choose|t: Seq<char>|
        hash_a == #[trigger] segments::fingerprint(seed_a + t) && hash_b == segments::fingerprint(
            seed_b + t,
        ) && (seed_a + t).is_prefix_of(a) && (seed_b + t).is_prefix_of(b);
    identity_laws::lemma_prefix_of_concat(a, x);
    identity_laws::lemma_prefix_of_concat(b, x);
    identity_laws::lemma_prefix_transitive(seed_a + t, a, a + x);
    identity_laws::lemma_prefix_transitive(seed_b + t, b, b + x);
}

/// Steps that are read behind different seeds find the same prefixes, up to fingerprints.
proof fn lemma_seeds_do_not_matter(
    seed_a: Seq<char>,
    seed_b: Seq<char>,
    steps: Seq<StepView>,
    counts: Seq<u32>,
    m: int,
)
    requires
        0 <= m <= steps.len(),
        identity_laws::told_apart(
            segments::read_steps(seed_a, steps, counts, true).prefix,
            segments::read_steps(seed_a, steps, counts, true).prefix,
        ),
        identity_laws::told_apart(
            segments::read_steps(seed_b, steps, counts, true).prefix,
            segments::read_steps(seed_b, steps, counts, true).prefix,
        ),
    ensures
        ({
            let a = segments::read_steps(seed_a, steps.take(m), counts, true);
            let b = segments::read_steps(seed_b, steps.take(m), counts, true);
            let n = a.segments.len();
            &&& exists|u: Seq<char>| a.prefix == #[trigger] (seed_a + u) && b.prefix == seed_b + u
            &&& a.cache_tokens == b.cache_tokens
            &&& a.used == b.used
            &&& a.active_ttl == b.active_ttl
            &&& b.segments.len() == n
            &&& usage::tokens_of(a.segments) == usage::tokens_of(b.segments)
            &&& usage::ttls_of(a.segments) == usage::ttls_of(b.segments)
            &&& n > 0 ==> same_end(
                a.segments[n - 1].hash,
                b.segments[n - 1].hash,
                seed_a,
                seed_b,
                a.prefix,
                b.prefix,
            )
        }),
    decreases m,
{
    let a = segments::read_steps(seed_a, steps.take(m), counts, true);
    let b = segments::read_steps(seed_b, steps.take(m), counts, true);
    if m == 0 {
        let u = Seq::<char>::empty();
        assert(a.prefix =~= seed_a + u);
        assert(b.prefix =~= seed_b + u);
        assert(usage::tokens_of(a.segments) =~= usage::tokens_of(b.segments));
        assert(usage::ttls_of(a.segments) =~= usage::ttls_of(b.segments));
    } else {
        lemma_seeds_do_not_matter(seed_a, seed_b, steps, counts, m - 1);
        let front = steps.take(m - 1);
        assert(steps.take(m).drop_last() =~= front);
        assert(steps.take(m).last() == steps[m - 1]);
        let x = segments::read_steps(seed_a, front, counts, true);
        let y = segments::read_steps(seed_b, front, counts, true);
        let u = choose|u: Seq<char>|
            x.prefix == #[trigger] (seed_a + u) && y.prefix == seed_b + u;
        let n = x.segments.len() as int;
        match steps[m - 1] {
            StepView::Feed { signature, source } => {
                assert(a.prefix =~= seed_a + (u + signature));
                assert(b.prefix =~= seed_b + (u + signature));
                if n > 0 {
                    lemma_same_end_grows(
                        x.segments[n - 1].hash,
                        y.segments[n - 1].hash,
                        seed_a,
                        seed_b,
                        x.prefix,
                        y.prefix,
                        signature,
                    );
                }
            },
            _ => {
                turn_laws::lemma_reading_grows(seed_a, steps, counts, true, m - 1);
                turn_laws::lemma_reading_grows(seed_b, steps, counts, true, m - 1);
                let whole_a = segments::read_steps(seed_a, steps, counts, true).prefix;
                let whole_b = segments::read_steps(seed_b, steps, counts, true).prefix;
                let ha = segments::fingerprint(x.prefix);
                let hb = segments::fingerprint(y.prefix);
                identity_laws::lemma_prefix_of_concat(x.prefix, Seq::empty());
                identity_laws::lemma_prefix_of_concat(y.prefix, Seq::empty());
                assert(same_end(ha, hb, seed_a, seed_b, x.prefix, y.prefix)) by {
                    assert(ha == segments::fingerprint(seed_a + u));
                }
                if n > 0 {
                    let t = choose|t: Seq<char>|
                        x.segments[n - 1].hash == #[trigger] segments::fingerprint(seed_a + t)
                            && y.segments[n - 1].hash == segments::fingerprint(seed_b + t) && (
                        seed_a + t).is_prefix_of(x.prefix) && (seed_b + t).is_prefix_of(y.prefix);
                    identity_laws::lemma_prefix_transitive(seed_a + t, x.prefix, whole_a);
                    identity_laws::lemma_prefix_transitive(seed_b + t, y.prefix, whole_b);
                    assert(x.segments[n - 1].hash == ha <==> t == u) by {
                        if x.segments[n - 1].hash == ha {
                            assert(seed_a + t == seed_a + u);
                            chain_laws::lemma_concat_cancels(seed_a, t, u);
                        }
                    }
                    assert(y.segments[n - 1].hash == hb <==> t == u) by {
                        if y.segments[n - 1].hash == hb {
                            assert(seed_b + t == seed_b + u);
                            chain_laws::lemma_concat_cancels(seed_b, t, u);
                        }
                    }
                    assert(usage::tokens_of(x.segments)[n - 1] == usage::tokens_of(
                        y.segments,
                    )[n - 1]);
                    assert(usage::ttls_of(x.segments)[n - 1] == usage::ttls_of(y.segments)[n - 1]);
                }
                assert forall|k: int| 0 <= k < n implies (
                #[trigger] x.segments[k]).cumulative_tokens == y.segments[k].cumulative_tokens
                    && x.segments[k].ttl_secs == y.segments[k].ttl_secs by {
                    assert(usage::tokens_of(x.segments)[k] == usage::tokens_of(y.segments)[k]);
                    assert(usage::ttls_of(x.segments)[k] == usage::ttls_of(y.segments)[k]);
                }
                assert(a.segments.len() == b.segments.len());
                assert forall|k: int| 0 <= k < a.segments.len() implies (
                #[trigger] a.segments[k]).cumulative_tokens == b.segments[k].cumulative_tokens
                    && a.segments[k].ttl_secs == b.segments[k].ttl_secs by {
                    if k < n {
                        assert(x.segments[k].ttl_secs == y.segments[k].ttl_secs);
                    }
                }
                assert(usage::tokens_of(a.segments) =~= usage::tokens_of(b.segments));
                assert(usage::ttls_of(a.segments) =~= usage::ttls_of(b.segments));
            },
        }
    }
}

/// The prefixes of a prompt have the same tokens and times to live for every account, and so has
/// the whole prompt the same tokens: the account has a part in nothing but the fingerprints.
/// Fingerprints are to tell the beginnings of the prompt apart, for either account.
pub proof fn law_accounts_differ_only_in_fingerprints(
    req: RequestView,
    a: u64,
    b: u64,
    counts: Seq<u32>,
)
    requires
        a != 0,
        b != 0,
        identity_laws::told_apart(
            segments::reading(req, a, counts).prefix,
            segments::reading(req, a, counts).prefix,
        ),
        identity_laws::told_apart(
            segments::reading(req, b, counts).prefix,
            segments::reading(req, b, counts).prefix,
        ),
    ensures
        usage::tokens_of(segments::reading(req, a, counts).segments) == usage::tokens_of(
            segments::reading(req, b, counts).segments,
        ),
        usage::ttls_of(segments::reading(req, a, counts).segments) == usage::ttls_of(
            segments::reading(req, b, counts).segments,
        ),
        segments::reading(req, a, counts).prompt_tokens == segments::reading(
            req,
            b,
            counts,
        ).prompt_tokens,
{
    let steps = prompt::request_steps(req);
    assert(steps.take(steps.len() as int) =~= steps);
    lemma_seeds_do_not_matter(
        segments::seed_text(a, req.model, req.tool_choice),
        segments::seed_text(b, req.model, req.tool_choice),
        steps,
        counts,
        steps.len() as int,
    );
    chain_laws::law_prompt_tokens_do_not_depend_on_the_account(req, a, b, counts);
}

} // verus!
