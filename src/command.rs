//! Turning one typed line into a request, or rejecting it.
use vstd::prelude::*;
use crate::message::{Request, RequestView};

verus! {

/// No character of `s` is a space.
pub open spec fn no_space(s: Seq<char>) -> bool {
    forall|i: int| 0 <= i < s.len() ==> s[i] != ' '
}

/// `k` is the index of the first space of `s`, or `s.len()` when there is none.
pub open spec fn first_space_at(s: Seq<char>, k: int) -> bool {
    &&& 0 <= k <= s.len()
    &&& no_space(s.take(k))
    &&& (k == s.len() || s[k] == ' ')
}

/// The index of the first space of `s`, or `s.len()` when there is none.
pub open spec fn first_space(s: Seq<char>) -> int {
    choose|k: int| first_space_at(s, k)
}

pub open spec fn join_keyword() -> Seq<char> {
    seq!['j', 'o', 'i', 'n', ' ']
}

pub open spec fn post_keyword() -> Seq<char> {
    seq!['p', 'o', 's', 't', ' ']
}

/// The request that a typed line stands for, if any.
///
/// `join GROUP` names one non-empty group without spaces; `post GROUP MESSAGE`
/// names a non-empty group, and the message is the non-empty rest of the line
/// after the space that follows the group, spaces included.
pub open spec fn parse_spec(line: Seq<char>) -> Option<RequestView> {
    if line.len() >= 5 && line.take(5) == join_keyword() {
        let g = line.skip(5);
        if g.len() > 0 && no_space(g) {
            Some(RequestView::Join { group_name: g })
        } else {
            None
        }
    } else if line.len() >= 5 && line.take(5) == post_keyword() {
        let rest = line.skip(5);
        let k = first_space(rest);
        if 0 < k && k + 1 < rest.len() {
            Some(RequestView::Post { group_name: rest.take(k), message: rest.skip(k + 1) })
        } else {
            None
        }
    } else {
        None
    }
}

/// There is exactly one first space.
pub proof fn lemma_first_space_unique(s: Seq<char>, k: int)
    requires
        first_space_at(s, k),
    ensures
        first_space(s) == k,
{
    let j = first_space(s);
    assert(first_space_at(s, j));
    if j < k {
        assert(s.take(k)[j] == s[j]);
    } else if k < j {
        assert(s.take(j)[k] == s[k]);
    }
}

/// Whether the five characters of `line` from index 0 are `kw`.
fn has_keyword(line: &str, n: usize, kw: &str) -> (r: bool)
    requires
        n == line@.len(),
        kw@.len() == 5,
    ensures
        r == (n >= 5 && line@.take(5) == kw@),
{
    if n < 5 {
        return false;
    }
    let mut i: usize = 0;
    while i < 5
        invariant
            n == line@.len(),
            n >= 5,
            kw@.len() == 5,
            i <= 5,
            forall|j: int| 0 <= j < i ==> line@[j] == kw@[j],
        decreases 5 - i,
    {
        if line.get_char(i) != kw.get_char(i) {
            assert(line@.take(5)[i as int] != kw@[i as int]);
            return false;
        }
        i = i + 1;
    }
    assert(line@.take(5) =~= kw@);
    true
}

/// The index of the first space of `line` at or after `from`, or `n` when there is none.
fn find_space(line: &str, n: usize, from: usize) -> (k: usize)
    requires
        n == line@.len(),
        from <= n,
    ensures
        first_space_at(line@.skip(from as int), k - from),
        from <= k <= n,
{
    let ghost rest = line@.skip(from as int);
    let mut i: usize = from;
    while i < n
        invariant
            n == line@.len(),
            from <= i <= n,
            rest == line@.skip(from as int),
            forall|j: int| from <= j < i ==> line@[j] != ' ',
        decreases n - i,
    {
        if line.get_char(i) == ' ' {
            assert(rest.take(i - from) =~= line@.subrange(from as int, i as int));
            return i;
        }
        i = i + 1;
    }
    assert(rest.take(i - from) =~= line@.subrange(from as int, i as int));
    i
}

/// The request that a typed line stands for, or `None` when the line is malformed.
pub fn parse_command(command: &str) -> (r: Option<Request>)
    ensures
        r matches Some(req) ==> parse_spec(command@) == Some(req@),
        r is None ==> parse_spec(command@) is None,
{
    proof {
        reveal_strlit("join ");
        reveal_strlit("post ");
        assert("join "@ =~= join_keyword());
        assert("post "@ =~= post_keyword());
    }
    let n = command.unicode_len();
    if has_keyword(command, n, "join ") {
        let k = find_space(command, n, 5);
        proof {
            lemma_first_space_unique(command@.skip(5), k - 5);
        }
        if k < n || n == 5 {
            if k < n {
                assert(command@.skip(5)[k - 5] == ' ');
            }
            return None;
        }
        assert(command@.skip(5).take(k - 5) =~= command@.skip(5));
        let g = String::from_str(command.substring_char(5, n));
        assert(g@ =~= command@.skip(5));
        Some(Request::Join { group_name: g })
    } else if has_keyword(command, n, "post ") {
        let k = find_space(command, n, 5);
        proof {
            lemma_first_space_unique(command@.skip(5), k - 5);
        }
        if k == 5 || k >= n - 1 {
            return None;
        }
        let g = String::from_str(command.substring_char(5, k));
        let m = String::from_str(command.substring_char(k + 1, n));
        assert(g@ =~= command@.skip(5).take(k - 5));
        assert(m@ =~= command@.skip(5).skip(k - 5 + 1));
        Some(Request::Post { group_name: g, message: m })
    } else {
        None
    }
}

/// A `join` line names one group: it is a join of exactly that group when the
/// group is non-empty and holds no space, and is rejected when nothing, or more
/// than one token, follows the keyword.
pub proof fn lemma_join_law(g: Seq<char>)
    ensures
        parse_spec(join_keyword() + g) == if g.len() > 0 && no_space(g) {
            Some(RequestView::Join { group_name: g })
        } else {
            None
        },
        parse_spec(join_keyword().take(4)) is None,
{
    let line = join_keyword() + g;
    assert(line.take(5) =~= join_keyword());
    assert(line.skip(5) =~= g);
}

/// A `post` line with a group and a message is a post whose message is the
/// whole rest of the line after the group, spaces included; a line with a
/// group and no message is rejected.
pub proof fn lemma_post_law(g: Seq<char>, m: Seq<char>)
    requires
        g.len() > 0,
        no_space(g),
    ensures
        m.len() > 0 ==> parse_spec(post_keyword() + g + seq![' '] + m) == Some(
            RequestView::Post { group_name: g, message: m },
        ),
        parse_spec(post_keyword() + g) is None,
        parse_spec(post_keyword() + g + seq![' ']) is None,
{
    let line = post_keyword() + g + seq![' '] + m;
    let rest = g + seq![' '] + m;
    assert(line.take(5) =~= post_keyword());
    assert(line.skip(5) =~= rest);
    assert(rest.take(g.len() as int) =~= g);
    lemma_first_space_unique(rest, g.len() as int);
    assert(rest.skip(g.len() as int + 1) =~= m);
    let bare = post_keyword() + g;
    assert(bare.take(5) =~= post_keyword());
    assert(bare.skip(5) =~= g);
    assert(g.take(g.len() as int) =~= g);
    lemma_first_space_unique(g, g.len() as int);
    let open = post_keyword() + g + seq![' '];
    let orest = g + seq![' '];
    assert(open.take(5) =~= post_keyword());
    assert(open.skip(5) =~= orest);
    assert(orest.take(g.len() as int) =~= g);
    lemma_first_space_unique(orest, g.len() as int);
}

} // verus!
