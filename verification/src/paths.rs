//! Conversion of paths between their single- and double-backslash spellings.

use crate::split::{
    find,
    joined,
    lemma_find_sound,
    lemma_joined_first,
    lemma_pieces_nonempty,
    occurs_at,
    pieces,
    replace,
    replaced,
};
use vstd::prelude::*;

verus! {

/// `s` with every backslash written twice.
pub open spec fn doubled(s: Seq<char>) -> Seq<char>
    decreases s.len(),
{
    if s.len() == 0 {
        Seq::empty()
    } else if s[0] == '\\' {
        seq!['\\', '\\'] + doubled(s.drop_first())
    } else {
        seq![s[0]] + doubled(s.drop_first())
    }
}

/// Doubling goes part by part.
pub proof fn lemma_doubled_additive(a: Seq<char>, b: Seq<char>)
    ensures
        doubled(a + b) == doubled(a) + doubled(b),
    decreases a.len(),
{
    if a.len() == 0 {
        assert(a + b =~= b);
        assert(doubled(a) + doubled(b) =~= doubled(b));
    } else {
        lemma_doubled_additive(a.drop_first(), b);
        assert((a + b).drop_first() =~= a.drop_first() + b);
        assert(doubled(a + b) =~= doubled(a) + doubled(b));
    }
}

/// Doubling changes nothing where there is no backslash.
pub proof fn lemma_doubled_without_backslash(s: Seq<char>)
    requires
        forall|i: int| 0 <= i < s.len() ==> s[i] != '\\',
    ensures
        doubled(s) == s,
    decreases s.len(),
{
    if s.len() > 0 {
        lemma_doubled_without_backslash(s.drop_first());
        assert(seq![s[0]] + s.drop_first() =~= s);
    }
}

/// Replacing each backslash by two is doubling.
pub proof fn lemma_two_backslash_doubles(path: Seq<char>)
    ensures
        replaced(path, "\\"@, "\\\\"@) == doubled(path),
    decreases path.len(),
{
    reveal_strlit("\\");
    reveal_strlit("\\\\");
    let one = "\\"@;
    let two = "\\\\"@;
    assert(one =~= seq!['\\']);
    assert(two =~= seq!['\\', '\\']);
    lemma_find_sound(path, one);
    assert forall|j: int| 0 <= j < path.len() && path[j] == '\\' implies occurs_at(
        path,
        one,
        j,
    ) by {
        assert(path.subrange(j, j + 1) =~= one);
    }
    match find(path, one) {
        Some(i) => {
            let before = path.take(i);
            let after = path.skip(i + 1);
            assert(path.subrange(i, i + 1)[0] == '\\');
            lemma_two_backslash_doubles(after);
            lemma_pieces_nonempty(after, one);
            lemma_joined_first(before, pieces(after, one), two);
            lemma_doubled_without_backslash(before);
            assert(path =~= before + one + after);
            lemma_doubled_additive(before + one, after);
            lemma_doubled_additive(before, one);
            assert(one.drop_first() =~= Seq::<char>::empty());
            assert(doubled(Seq::<char>::empty()) =~= Seq::<char>::empty());
            assert(doubled(one) =~= two);
        },
        None => {
            lemma_doubled_without_backslash(path);
        },
    }
}

/// Halving undoes doubling: a path with its backslashes doubled, and then
/// every pair of backslashes written as one, is the path again.
pub proof fn lemma_one_backslash_undoes_two(path: Seq<char>)
    ensures
        replaced(doubled(path), "\\\\"@, "\\"@) == path,
    decreases path.len(),
{
    reveal_strlit("\\");
    reveal_strlit("\\\\");
    let one = "\\"@;
    let two = "\\\\"@;
    assert(one =~= seq!['\\']);
    assert(two =~= seq!['\\', '\\']);
    if path.len() > 0 {
        let tail = path.drop_first();
        let rest = doubled(tail);
        let all = doubled(path);
        lemma_one_backslash_undoes_two(tail);
        lemma_pieces_nonempty(rest, two);
        assert(seq![path[0]] + tail =~= path);
        if path[0] == '\\' {
            assert(all.subrange(0, 2) =~= two);
            assert(all.skip(2) =~= rest);
            assert(all.take(0) =~= Seq::<char>::empty());
            lemma_joined_first(Seq::empty(), pieces(rest, two), one);
            assert(Seq::<char>::empty() + one + tail =~= path);
        } else {
            assert(all.drop_first() =~= rest);
            if all.len() >= 2 {
                assert(all.subrange(0, 2)[0] == path[0]);
            }
            lemma_find_sound(rest, two);
            match find(rest, two) {
                Some(i) => {
                    assert(all.take(i + 1) =~= seq![path[0]] + rest.take(i));
                    assert(all.skip(i + 1 + 2) =~= rest.skip(i + 2));
                    let others = pieces(rest.skip(i + 2), two);
                    lemma_pieces_nonempty(rest.skip(i + 2), two);
                    lemma_joined_first(all.take(i + 1), others, one);
                    lemma_joined_first(rest.take(i), others, one);
                    assert(joined(pieces(all, two), one) =~= seq![path[0]] + joined(
                        pieces(rest, two),
                        one,
                    ));
                },
                None => {},
            }
        }
    } else {
        assert(doubled(path) =~= Seq::<char>::empty());
    }
}

/// `path` with every backslash written twice.
pub fn windows_paths_two_backslash(path: &str) -> (out: String)
    ensures
        out@ == replaced(path@, "\\"@, "\\\\"@),
        out@ == doubled(path@),
{
    proof {
        lemma_two_backslash_doubles(path@);
    }
    replace(path, "\\", "\\\\")
}

/// `path` with every pair of backslashes, taken from left to right, written
/// as a single backslash.
pub fn windows_paths_one_backslash(path: &str) -> (out: String)
    ensures
        out@ == replaced(path@, "\\\\"@, "\\"@),
{
    replace(path, "\\\\", "\\")
}

} // verus!
