//! Splitting the ref-listing tool's output into lines and fields.

use vstd::prelude::*;

verus! {

/// Split `s` at every occurrence of `d`, keeping empty pieces, as
/// `str::split` does for a single-character pattern. The result always
/// has one more piece than `s` has delimiters.
pub open spec fn split_on(s: Seq<char>, d: char) -> Seq<Seq<char>>
    decreases s.len(),
{
    if s.len() == 0 {
        seq![Seq::<char>::empty()]
    } else if s[0] == d {
        seq![Seq::<char>::empty()] + split_on(s.drop_first(), d)
    } else {
        let rest = split_on(s.drop_first(), d);
        seq![seq![s[0]] + rest[0]] + rest.drop_first()
    }
}

proof fn lemma_split_on_len(s: Seq<char>, d: char)
    ensures
        split_on(s, d).len() >= 1,
    decreases s.len(),
{
    if s.len() > 0 {
        lemma_split_on_len(s.drop_first(), d);
    }
}

/// A string without the delimiter splits into itself alone.
proof fn lemma_split_on_none(s: Seq<char>, d: char)
    requires
        forall|m: int| 0 <= m < s.len() ==> s[m] != d,
    ensures
        split_on(s, d) == seq![s],
    decreases s.len(),
{
    if s.len() == 0 {
        assert(split_on(s, d) =~~= seq![s]);
    } else {
        assert(s[0] != d);
        assert(forall|m: int| 0 <= m < s.drop_first().len() ==> s.drop_first()[m] != d);
        lemma_split_on_none(s.drop_first(), d);
        assert(seq![s[0]] + s.drop_first() =~= s);
        assert(split_on(s, d) =~~= seq![s]);
    }
}

/// Splitting at the first delimiter: the piece before it, then the
/// split of what follows it.
proof fn lemma_split_on_first(s: Seq<char>, d: char, p: int)
    requires
        0 <= p < s.len(),
        s[p] == d,
        forall|m: int| 0 <= m < p ==> s[m] != d,
    ensures
        split_on(s, d) == seq![s.take(p)] + split_on(s.skip(p + 1), d),
    decreases p,
{
    if p == 0 {
        assert(s.take(0) =~= Seq::<char>::empty());
        assert(s.skip(1) =~= s.drop_first());
        assert(split_on(s, d) =~~= seq![s.take(0)] + split_on(s.skip(1), d));
    } else {
        let t = s.drop_first();
        assert(t[p - 1] == d);
        assert(forall|m: int| 0 <= m < p - 1 ==> t[m] != d) by {
            assert(forall|m: int| 0 <= m < p - 1 ==> t[m] == s[m + 1]);
        }
        lemma_split_on_first(t, d, p - 1);
        lemma_split_on_len(t.skip(p), d);
        assert(seq![s[0]] + t.take(p - 1) =~= s.take(p));
        assert(t.skip(p) =~= s.skip(p + 1));
        assert(split_on(s, d) =~~= seq![s.take(p)] + split_on(s.skip(p + 1), d));
    }
}

/// The first position of `d` in `s` at or after `from`, if any.
fn find_char_from(s: &str, n: usize, d: char, from: usize) -> (r: Option<usize>)
    requires
        n == s@.len(),
        from <= n,
    ensures
        match r {
            Some(p) => from <= p < n && s@[p as int] == d && forall|m: int|
                from <= m < p ==> s@[m] != d,
            None => forall|m: int| from <= m < n ==> s@[m] != d,
        },
{
    let mut p: usize = from;
    while p < n
        invariant
            n == s@.len(),
            from <= p <= n,
            forall|m: int| from <= m < p ==> s@[m] != d,
        decreases n - p,
    {
        if s.get_char(p) == d {
            return Some(p);
        }
        p = p + 1;
    }
    None
}

/// Split `s` at every occurrence of `d`, keeping empty pieces.
#[verifier::loop_isolation(false)]
pub fn split_str(s: &str, d: char) -> (r: Vec<String>)
    ensures
        r.deep_view() == split_on(s@, d),
{
    let n: usize = s.unicode_len();
    let mut out: Vec<String> = Vec::new();
    let mut start: usize = 0;
    proof {
        assert(s@.skip(0) == s@);
        assert(out.deep_view() =~= Seq::<Seq<char>>::empty());
        assert(out.deep_view() + split_on(s@, d) =~~= split_on(s@, d));
    }
    loop
        invariant
            start <= n,
            split_on(s@, d) == out.deep_view() + split_on(s@.skip(start as int), d),
        decreases n - start,
    {
        match find_char_from(s, n, d, start) {
            None => {
                let piece = s.substring_char(start, n).to_owned();
                proof {
                    assert(forall|m: int|
                        0 <= m < s@.skip(start as int).len() ==> s@.skip(start as int)[m]
                            != d) by {
                        assert(forall|m: int|
                            0 <= m < s@.skip(start as int).len() ==> #[trigger] s@.skip(
                                start as int,
                            )[m] == s@[m + start]);
                    }
                    lemma_split_on_none(s@.skip(start as int), d);
                    assert(piece@ == s@.skip(start as int));
                }
                out.push(piece);
                proof {
                    assert(out.deep_view() =~= split_on(s@, d));
                }
                return out;
            },
            Some(p) => {
                let piece = s.substring_char(start, p).to_owned();
                proof {
                    let t = s@.skip(start as int);
                    assert(t[p - start] == s@[p as int]);
                    assert(forall|m: int| 0 <= m < p - start ==> t[m] != d) by {
                        assert(forall|m: int|
                            0 <= m < t.len() ==> #[trigger] t[m] == s@[m + start]);
                    }
                    lemma_split_on_first(t, d, p - start);
                    assert(t.take(p - start) =~= s@.subrange(start as int, p as int));
                    assert(t.skip(p - start + 1) =~= s@.skip(p + 1));
                }
                out.push(piece);
                start = p + 1;
                proof {
                    assert(out.deep_view() + split_on(s@.skip(start as int), d) =~= split_on(
                        s@,
                        d,
                    ));
                }
            },
        }
    }
}

/// A line piece with any single trailing carriage return removed.
pub open spec fn strip_cr(p: Seq<char>) -> Seq<char> {
    if p.len() > 0 && p.last() == '\r' {
        p.drop_last()
    } else {
        p
    }
}

/// Each piece with any single trailing carriage return removed.
pub open spec fn strip_all(ps: Seq<Seq<char>>) -> Seq<Seq<char>> {
    ps.map_values(|p: Seq<char>| strip_cr(p))
}

/// What `str::lines` yields: pieces between newlines, each
/// newline-terminated piece with a trailing carriage return removed,
/// and no final empty piece when the text ends with a newline.
pub open spec fn lines_of(s: Seq<char>) -> Seq<Seq<char>> {
    let ps = split_on(s, '\n');
    let body = strip_all(ps.drop_last());
    if ps.last().len() == 0 {
        body
    } else {
        body.push(ps.last())
    }
}

/// Split text into lines as `str::lines` does.
#[verifier::loop_isolation(false)]
pub fn split_lines(s: &str) -> (r: Vec<String>)
    ensures
        r.deep_view() == lines_of(s@),
{
    let mut ps = split_str(s, '\n');
    proof {
        lemma_split_on_len(s@, '\n');
    }
    let last = ps.pop().unwrap();
    let count: usize = ps.len();
    let mut out: Vec<String> = Vec::new();
    let mut i: usize = 0;
    while i < count
        invariant
            i <= count,
            out.deep_view() == strip_all(ps.deep_view().take(i as int)),
        decreases count - i,
    {
        let piece_len: usize = ps[i].as_str().unicode_len();
        let stripped: String = if piece_len > 0 && ps[i].as_str().get_char(piece_len - 1)
            == '\r' {
            ps[i].as_str().substring_char(0, piece_len - 1).to_owned()
        } else {
            ps[i].clone()
        };
        proof {
            assert(stripped@ == strip_cr(ps@[i as int]@));
        }
        let ghost sv = stripped@;
        out.push(stripped);
        i = i + 1;
        proof {
            let dv = ps.deep_view();
            let target = strip_all(dv.take(i as int));
            assert(dv[i - 1] == ps@[i - 1]@);
            assert forall|m: int| 0 <= m < i implies out.deep_view()[m] == target[m] by {
                assert(target[m] == strip_cr(dv.take(i as int)[m]));
                assert(dv.take(i as int)[m] == dv[m]);
                if m < i - 1 {
                    assert(out.deep_view()[m] == strip_all(dv.take(i - 1))[m]);
                    assert(strip_all(dv.take(i - 1))[m] == strip_cr(dv.take(i - 1)[m]));
                } else {
                    assert(out@[m] == out@.last());
                    assert(out.deep_view()[m] == sv);
                }
            }
            assert(out.deep_view() =~= target);
        }
    }
    proof {
        assert(ps.deep_view().take(count as int) =~= ps.deep_view());
        assert(ps.deep_view() =~= split_on(s@, '\n').drop_last());
        assert(out.deep_view() =~= strip_all(split_on(s@, '\n').drop_last()));
    }
    let last_len: usize = last.as_str().unicode_len();
    if last_len > 0 {
        out.push(last);
        proof {
            assert(out.deep_view() =~= lines_of(s@));
        }
    }
    out
}

/// `c` is whitespace: one of the characters with the Unicode
/// White_Space property, the set `str::trim` removes.
pub open spec fn is_space(c: char) -> bool {
    let u = c as u32;
    (9 <= u && u <= 13) || u == 0x20 || u == 0x85 || u == 0xA0 || u == 0x1680 || (0x2000
        <= u && u <= 0x200A) || u == 0x2028 || u == 0x2029 || u == 0x202F || u == 0x205F
        || u == 0x3000
}

/// `s` is empty or consists of whitespace only: trimming it leaves
/// nothing.
pub open spec fn is_blank(s: Seq<char>) -> bool {
    forall|i: int| 0 <= i < s.len() ==> is_space(#[trigger] s[i])
}

/// Whether the field is blank after trimming.
pub fn blank(s: &str) -> (r: bool)
    ensures
        r == is_blank(s@),
{
    let n: usize = s.unicode_len();
    let mut i: usize = 0;
    while i < n
        invariant
            n == s@.len(),
            i <= n,
            forall|m: int| 0 <= m < i ==> is_space(#[trigger] s@[m]),
        decreases n - i,
    {
        let u: u32 = s.get_char(i) as u32;
        let space = (9 <= u && u <= 13) || u == 0x20 || u == 0x85 || u == 0xA0 || u
            == 0x1680 || (0x2000 <= u && u <= 0x200A) || u == 0x2028 || u == 0x2029 || u
            == 0x202F || u == 0x205F || u == 0x3000;
        if !space {
            assert(!is_space(s@[i as int]));
            return false;
        }
        i = i + 1;
    }
    true
}

} // verus!
