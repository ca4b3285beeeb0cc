//! What stops a dynamic part, told by the segments of a text.
use vstd::prelude::*;

use crate::barrier::{
    barred_at, barrier_at, first_barrier, is_artifact, lemma_barrier_from, segment_at,
};

verus! {

/// Whether a segment of this name stops a dynamic part: it is hidden or relative, holds installed
/// modules or holds tests.
pub open spec fn is_barred_name(name: Seq<char>) -> bool {
    ||| name.len() > 0 && name[0] == '.'
    ||| name == "node_modules"@
    ||| name == "__test__"@
    ||| name == "__tests__"@
}

/// Whether `name` is the segment of a text that stands between `before` and `after`.
pub open spec fn is_segment(before: Seq<char>, name: Seq<char>, after: Seq<char>) -> bool {
    &&& before.len() > 0 ==> before.last() == '/'
    &&& after.len() > 0 ==> after[0] == '/'
    &&& forall|i: int| 0 <= i < name.len() ==> #[trigger] name[i] != '/'
}

proof fn lemma_named(before: Seq<char>, name: Seq<char>, after: Seq<char>, wanted: Seq<char>)
    requires
        is_segment(before, name, after),
        wanted.len() > 0,
        forall|i: int| 0 <= i < wanted.len() ==> #[trigger] wanted[i] != '/',
    ensures
        segment_at(before + name + after, wanted, before.len() as int) == (name == wanted),
{
    let text = before + name + after;
    let (k, n, m) = (before.len() as int, name.len() as int, wanted.len() as int);
    if name == wanted {
        assert(text.subrange(k, k + m) =~= wanted);
        if after.len() > 0 {
            assert(text[k + m] == after[0]);
        }
    }
    if segment_at(text, wanted, k) {
        let found = text.subrange(k, k + m);
        if n < m {
            if after.len() > 0 {
                assert(found[n] == text[k + n]);
                assert(text[k + n] == after[0]);
                assert(wanted[n] != '/');
            }
        } else if n > m {
            assert(text[k + m] == name[m]);
        } else {
            assert(found =~= name);
        }
    }
}

/// A segment bars a dynamic part if and only if its name does, or it is empty where that counts
/// and something follows it.
proof fn lemma_barred_segment(before: Seq<char>, name: Seq<char>, after: Seq<char>, empty: bool)
    requires
        is_segment(before, name, after),
    ensures
        barred_at(before + name + after, before.len() as int, empty) == (is_barred_name(name)
            || empty && name.len() == 0 && after.len() > 0),
{
    reveal_strlit("node_modules");
    reveal_strlit("__test__");
    reveal_strlit("__tests__");
    let text = before + name + after;
    let k = before.len() as int;
    lemma_named(before, name, after, "node_modules"@);
    lemma_named(before, name, after, "__test__"@);
    lemma_named(before, name, after, "__tests__"@);
    if name.len() > 0 {
        assert(text[k] == name[0]);
    } else if after.len() > 0 {
        assert(text[k] == after[0]);
    }
}

/// A dynamic part stops in front of a barred segment: at the slash before it, or at the beginning
/// of the text. A segment is barred by its name, or where it is empty, that counts, and something
/// follows it.
pub proof fn law_dynamic_stops_at_barred_segments(
    before: Seq<char>,
    name: Seq<char>,
    after: Seq<char>,
    empty: bool,
)
    requires
        is_segment(before, name, after),
    ensures
        ({
            let text = before + name + after;
            let barred = is_barred_name(name) || empty && name.len() == 0 && after.len() > 0;
            &&& before.len() == 0 && barred ==> barrier_at(text, 0, empty)
            &&& before.len() > 1 ==> barrier_at(text, before.len() - 1, empty) == barred
            &&& before.len() == 1 ==> barrier_at(text, 0, empty) == (barred || empty)
        }),
{
    let text = before + name + after;
    let k = before.len() as int;
    lemma_barred_segment(before, name, after, empty);
    if k > 0 {
        assert(text[k - 1] == before.last());
    }
    if k == 1 {
        let none = Seq::<char>::empty();
        let rest = text;
        assert(is_segment(none, none, rest)) by {
            assert(rest[0] == '/');
        }
        lemma_barred_segment(none, none, rest, empty);
        assert(none + none + rest =~= text);
        assert(is_barred_name(none) == false) by {
            reveal_strlit("node_modules");
            reveal_strlit("__test__");
            reveal_strlit("__tests__");
        }
    }
}

/// A dynamic part stops nowhere but at the beginning of a text or at a slash in it. At the
/// beginning of a text without a slash there it stops in front of a barred segment.
pub proof fn law_dynamic_stops_at_slashes(text: Seq<char>, k: int, empty: bool)
    requires
        barrier_at(text, k, empty),
    ensures
        0 <= k < text.len(),
        k > 0 ==> text[k] == '/',
        k == 0 && text[0] != '/' ==> exists|n: int|
            0 < n <= text.len() && is_segment(Seq::empty(), #[trigger] text.take(n), text.skip(n))
                && is_barred_name(text.take(n)),
{
    reveal_strlit("node_modules");
    reveal_strlit("__test__");
    reveal_strlit("__tests__");
    if k == 0 && text[0] != '/' {
        let n = lemma_first_segment(text, 1);
        let none = Seq::<char>::empty();
        assert(none + text.take(n) + text.skip(n) =~= text);
        lemma_barred_segment(none, text.take(n), text.skip(n), empty);
    }
}

proof fn lemma_first_segment(text: Seq<char>, n: int) -> (end: int)
    requires
        0 < n <= text.len(),
        forall|i: int| 0 <= i < n ==> #[trigger] text[i] != '/',
    ensures
        0 < end <= text.len(),
        is_segment(Seq::empty(), text.take(end), text.skip(end)),
    decreases text.len() - n,
{
    if n == text.len() || text[n] == '/' {
        n
    } else {
        lemma_first_segment(text, n + 1)
    }
}

/// The first place where a dynamic part stops is the one before which it stops nowhere.
pub proof fn law_first_stop_is_first(text: Seq<char>, k: int, empty: bool)
    requires
        0 <= k,
    ensures
        (first_barrier(text, empty) == Some(k)) == (barrier_at(text, k, empty) && forall|j: int|
            0 <= j < k ==> !#[trigger] barrier_at(text, j, empty)),
        first_barrier(text, empty) is None ==> !barrier_at(text, k, empty),
{
    lemma_barrier_from(text, empty, 0);
    if barrier_at(text, k, empty) {
        law_dynamic_stops_at_slashes(text, k, empty);
    }
}

/// A generated file is told by its ending, `.d.ts` or `.map`, and by nothing else.
pub proof fn law_generated_files_end_like_this(name: Seq<char>, text: Seq<char>)
    ensures
        is_artifact(name + seq!['.', 'd', '.', 't', 's']),
        is_artifact(name + seq!['.', 'm', 'a', 'p']),
        is_artifact(text) ==> {
            let n = text.len() as int;
            ||| n >= 5 && text.skip(n - 5) == seq!['.', 'd', '.', 't', 's']
            ||| n >= 4 && text.skip(n - 4) == seq!['.', 'm', 'a', 'p']
        },
{
    reveal_strlit(".d.ts");
    reveal_strlit(".map");
    assert(".d.ts"@ =~= seq!['.', 'd', '.', 't', 's']);
    assert(".map"@ =~= seq!['.', 'm', 'a', 'p']);
    let a = name + seq!['.', 'd', '.', 't', 's'];
    let b = name + seq!['.', 'm', 'a', 'p'];
    assert(a.skip(a.len() - 5) =~= ".d.ts"@);
    assert(b.skip(b.len() - 4) =~= ".map"@);
}

} // verus!
