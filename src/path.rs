//! Path grammar.
//!
//! A path is either the root (`""` or `"/"`) or `/` followed by one or more
//! names separated by single `/`: `/a/b`. Empty segments (`//`, a trailing
//! `/`) and relative paths are not paths; every operation rejects them.

use vstd::prelude::*;
use crate::node::{segs_view, valid_name};

verus! {

/// Relies on std's `str::chars`, collected: the characters of `s` in order.
#[verifier::external_body]
fn chars_of(s: &str) -> (r: Vec<char>)
    ensures
        r@ == s@,
{
    s.chars().collect()
}

/// Relies on std's `String: FromIterator<&char>`: the string of the characters of `v`.
#[verifier::external_body]
fn string_from_chars(v: &Vec<char>) -> (r: String)
    ensures
        r@ == v@,
{
    v.iter().collect()
}

/// The pieces of `s` between `/`, from position `i` on, given the piece `cur`
/// begun and the pieces `acc` already cut.
pub open spec fn split_from(s: Seq<char>, i: int, cur: Seq<char>, acc: Seq<Seq<char>>) -> Seq<Seq<char>>
    decreases s.len() - i,
{
    if i >= s.len() {
        acc.push(cur)
    } else if s[i] == '/' {
        split_from(s, i + 1, Seq::empty(), acc.push(cur))
    } else {
        split_from(s, i + 1, cur.push(s[i]), acc)
    }
}

/// The root, written `""` or `"/"`.
pub open spec fn is_root_path(p: Seq<char>) -> bool {
    p.len() == 0 || p == seq!['/']
}

/// The pieces between the `/` of `p` after its first character.
pub open spec fn pieces(p: Seq<char>) -> Seq<Seq<char>> {
    split_from(p, 1, Seq::empty(), Seq::empty())
}

/// `p` is the root or an absolute path without empty segments.
pub open spec fn valid_path(p: Seq<char>) -> bool {
    is_root_path(p) || (p.len() > 0 && p[0] == '/' && forall|k: int| 0 <= k < pieces(p).len() ==> #[trigger] pieces(p)[k].len() > 0)
}

/// The names along `p`, from the root down.
pub open spec fn path_segments(p: Seq<char>) -> Seq<Seq<char>> {
    if is_root_path(p) {
        Seq::empty()
    } else {
        pieces(p)
    }
}

/// No piece holds a `/`.
pub open spec fn slash_free(s: Seq<char>) -> bool {
    forall|i: int| 0 <= i < s.len() ==> s[i] != '/'
}

proof fn lemma_split_slash_free(s: Seq<char>, i: int, cur: Seq<char>, acc: Seq<Seq<char>>)
    requires
        i >= 0,
        slash_free(cur),
        forall|k: int| 0 <= k < acc.len() ==> slash_free(#[trigger] acc[k]),
    ensures
        forall|k: int| 0 <= k < split_from(s, i, cur, acc).len() ==> slash_free(#[trigger] split_from(s, i, cur, acc)[k]),
    decreases s.len() - i,
{
    if i >= s.len() {
        assert(split_from(s, i, cur, acc) == acc.push(cur));
        assert forall|k: int| 0 <= k < acc.push(cur).len() implies slash_free(#[trigger] acc.push(cur)[k]) by {
            if k < acc.len() {
                assert(acc.push(cur)[k] == acc[k]);
            }
        }
    } else if s[i] == '/' {
        let acc2 = acc.push(cur);
        assert forall|k: int| 0 <= k < acc2.len() implies slash_free(#[trigger] acc2[k]) by {
            if k < acc.len() {
                assert(acc2[k] == acc[k]);
            }
        }
        lemma_split_slash_free(s, i + 1, Seq::empty(), acc2);
        assert(split_from(s, i, cur, acc) == split_from(s, i + 1, Seq::empty(), acc2));
    } else {
        let cur2 = cur.push(s[i]);
        assert forall|j: int| 0 <= j < cur2.len() implies cur2[j] != '/' by {
            if j < cur.len() {
                assert(cur2[j] == cur[j]);
            }
        }
        lemma_split_slash_free(s, i + 1, cur2, acc);
        assert(split_from(s, i, cur, acc) == split_from(s, i + 1, cur2, acc));
    }
}

proof fn lemma_split_len(s: Seq<char>, i: int, cur: Seq<char>, acc: Seq<Seq<char>>)
    ensures
        split_from(s, i, cur, acc).len() > acc.len(),
    decreases s.len() - i,
{
    if i < s.len() {
        if s[i] == '/' {
            lemma_split_len(s, i + 1, Seq::empty(), acc.push(cur));
        } else {
            lemma_split_len(s, i + 1, cur.push(s[i]), acc);
        }
    }
}

/// Only the root has no segments.
pub proof fn lemma_segments_empty(p: Seq<char>)
    ensures
        path_segments(p).len() == 0 <==> is_root_path(p),
{
    lemma_split_len(p, 1, Seq::empty(), Seq::empty());
}

/// Every segment of a valid path is a valid name.
pub proof fn lemma_segments_valid(p: Seq<char>)
    requires
        valid_path(p),
    ensures
        forall|k: int| 0 <= k < path_segments(p).len() ==> valid_name(#[trigger] path_segments(p)[k]),
{
    if !is_root_path(p) {
        lemma_split_slash_free(p, 1, Seq::empty(), Seq::empty());
        assert forall|k: int| 0 <= k < path_segments(p).len() implies valid_name(#[trigger] path_segments(p)[k]) by {
            assert(pieces(p)[k].len() > 0);
            assert(slash_free(pieces(p)[k]));
        }
    }
}

/// `name` can name an entry: not empty, no `/`.
pub fn is_valid_name(name: &str) -> (r: bool)
    ensures
        r == valid_name(name@),
{
    let cs = chars_of(name);
    if cs.len() == 0 {
        return false;
    }
    let mut i: usize = 0;
    while i < cs.len()
        invariant
            0 <= i <= cs.len(),
            cs@ == name@,
            forall|j: int| 0 <= j < i ==> cs@[j] != '/',
        decreases cs.len() - i,
    {
        if cs[i] == '/' {
            return false;
        }
        i += 1;
    }
    true
}

/// The segments of `path`, or `None` where `path` is not a path.
pub fn parse_path(path: &str) -> (r: Option<Vec<String>>)
    ensures
        r is Some <==> valid_path(path@),
        r matches Some(segs) ==> segs_view(segs@) == path_segments(path@),
{
    let cs = chars_of(path);
    if cs.len() == 0 || (cs.len() == 1 && cs[0] == '/') {
        proof {
            if cs.len() == 1 {
                assert(path@ =~= seq!['/']);
            }
        }
        let r: Vec<String> = Vec::new();
        assert(segs_view(r@) =~= Seq::<Seq<char>>::empty());
        return Some(r);
    }
    if cs[0] != '/' {
        return None;
    }
    assert(!is_root_path(path@)) by {
        if path@ == seq!['/'] {
            assert(path@.len() == 1);
        }
    }
    let mut acc: Vec<String> = Vec::new();
    let mut cur: Vec<char> = Vec::new();
    let mut all_nonempty = true;
    let mut i: usize = 1;
    assert(segs_view(acc@) =~= Seq::<Seq<char>>::empty());
    assert(cur@ =~= Seq::<char>::empty());
    while i < cs.len()
        invariant
            1 <= i <= cs.len(),
            cs@ == path@,
            pieces(path@) == split_from(path@, i as int, cur@, segs_view(acc@)),
            all_nonempty <==> forall|k: int| 0 <= k < acc@.len() ==> #[trigger] acc@[k]@.len() > 0,
        decreases cs.len() - i,
    {
        let c = cs[i];
        if c == '/' {
            if cur.len() == 0 {
                all_nonempty = false;
            }
            let piece = string_from_chars(&cur);
            let ghost before = acc@;
            let ghost flag = all_nonempty;
            acc.push(piece);
            assert(segs_view(acc@) =~= segs_view(before).push(cur@));
            assert(all_nonempty <==> forall|k: int| 0 <= k < acc@.len() ==> #[trigger] acc@[k]@.len() > 0) by {
                assert(acc@[acc@.len() - 1]@ == cur@);
                assert forall|k: int| 0 <= k < before.len() implies #[trigger] acc@[k] == before[k] by {}
                if !all_nonempty && cur@.len() != 0 {
                    let k = choose|k: int| 0 <= k < before.len() && !(#[trigger] before[k]@.len() > 0);
                    assert(acc@[k] == before[k]);
                }
            }
            cur = Vec::new();
            assert(cur@ =~= Seq::<char>::empty());
        } else {
            cur.push(c);
        }
        i += 1;
    }
    if cur.len() == 0 {
        all_nonempty = false;
    }
    let piece = string_from_chars(&cur);
    let ghost before = acc@;
    acc.push(piece);
    assert(segs_view(acc@) =~= segs_view(before).push(cur@));
    assert(segs_view(acc@) == pieces(path@));
    assert(all_nonempty <==> forall|k: int| 0 <= k < pieces(path@).len() ==> #[trigger] pieces(path@)[k].len() > 0) by {
        if !all_nonempty {
            if cur@.len() == 0 {
                assert(pieces(path@)[acc@.len() - 1].len() == 0);
            } else {
                let k = choose|k: int| 0 <= k < before.len() && !(#[trigger] before[k]@.len() > 0);
                assert(pieces(path@)[k] == before[k]@);
            }
        } else {
            assert forall|k: int| 0 <= k < pieces(path@).len() implies #[trigger] pieces(path@)[k].len() > 0 by {
                assert(pieces(path@)[k] == acc@[k]@);
            }
        }
    }
    if all_nonempty {
        Some(acc)
    } else {
        None
    }
}

} // verus!
