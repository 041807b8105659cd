use vstd::prelude::*;
use vstd::std_specs::iter::IteratorSpec;
use vstd::string::StringSliceAdditionalSpecFns;
use vstd::utf8::{
    char_is_scalar, decode_utf8, encode_scalar, encode_utf8, encode_utf8_decode_utf8,
    encode_utf8_first_scalar, encode_utf8_valid_utf8, is_char_boundary, pop_first_scalar,
};

verus! {

/// Whether `q` occurs in `l` as a contiguous run of characters.
pub open spec fn has_substring(l: Seq<char>, q: Seq<char>) -> bool {
    exists|i: int| 0 <= i <= l.len() - q.len() && #[trigger] l.subrange(i, i + q.len()) == q
}

/// The characters of `s`, in order, as a vector.
fn chars_of(s: &str) -> (r: Vec<char>)
    ensures
        r@ == s@,
{
    let mut r: Vec<char> = Vec::new();
    for c in it: s.chars()
        invariant
            r@ == it.seq().take(it.index() as int),
    {
        r.push(c);
    }
    r
}

/// Whether `q` occurs in `l` starting at character `i`.
fn occurs_at(l: &Vec<char>, q: &Vec<char>, i: usize) -> (r: bool)
    requires
        i + q.len() <= l.len(),
    ensures
        r == (l@.subrange(i as int, i + q.len()) == q@),
{
    let mut k: usize = 0;
    while k < q.len()
        invariant
            i + q.len() <= l.len(),
            k <= q.len(),
            forall|m: int| 0 <= m < k ==> l@[i + m] == q@[m],
        decreases q.len() - k,
    {
        if l[i + k] != q[k] {
            proof {
                assert(l@.subrange(i as int, i + q.len())[k as int] != q@[k as int]);
            }
            return false;
        }
        k = k + 1;
    }
    proof {
        assert(l@.subrange(i as int, i + q.len()) =~= q@);
    }
    true
}

/// Whether `query` occurs in `line` as a contiguous run of characters.
pub fn line_contains(line: &str, query: &str) -> (r: bool)
    ensures
        r == has_substring(line@, query@),
{
    let l = chars_of(line);
    let q = chars_of(query);
    if q.len() > l.len() {
        return false;
    }
    let last = l.len() - q.len();
    let mut i: usize = 0;
    while i < last
        invariant
            l@ == line@,
            q@ == query@,
            last == l.len() - q.len(),
            i <= last,
            forall|m: int| 0 <= m < i ==> #[trigger] l@.subrange(m, m + q.len()) != q@,
        decreases last - i,
    {
        if occurs_at(&l, &q, i) {
            return true;
        }
        i = i + 1;
    }
    occurs_at(&l, &q, last)
}

/// Length of the first line of `s`: the characters before the first newline,
/// or all of `s` where it has none.
pub open spec fn line_len(s: Seq<char>) -> nat
    decreases s.len(),
{
    if s.len() == 0 || s[0] == '\n' {
        0
    } else {
        1 + line_len(s.drop_first())
    }
}

/// A line ended by `"\r\n"` loses its carriage return along with the newline.
pub open spec fn strip_cr(l: Seq<char>) -> Seq<char> {
    if l.len() > 0 && l.last() == '\r' {
        l.drop_last()
    } else {
        l
    }
}

/// The lines of a text: newline characters separate them, a line ended by
/// `"\r\n"` drops the carriage return too, and a final newline opens no
/// extra empty line.
pub open spec fn lines_of(s: Seq<char>) -> Seq<Seq<char>>
    decreases s.len(),
{
    if s.len() == 0 {
        seq![]
    } else if line_len(s) < s.len() {
        seq![strip_cr(s.take(line_len(s) as int))] + lines_of(s.skip(line_len(s) + 1 as int))
    } else {
        seq![s]
    }
}

/// What a sequence of string slices reads as.
pub open spec fn views(r: Seq<&str>) -> Seq<Seq<char>> {
    r.map_values(|l: &str| l@)
}

proof fn lemma_line_len(s: Seq<char>, n: int)
    requires
        0 <= n <= s.len(),
        forall|k: int| 0 <= k < n ==> s[k] != '\n',
        n == s.len() || s[n] == '\n',
    ensures
        line_len(s) == n,
    decreases n,
{
    if n > 0 {
        lemma_line_len(s.drop_first(), n - 1);
    }
}

proof fn lemma_encode_split(s: Seq<char>, k: int)
    requires
        0 <= k <= s.len(),
    ensures
        encode_utf8(s) == encode_utf8(s.take(k)) + encode_utf8(s.skip(k)),
        is_char_boundary(encode_utf8(s), encode_utf8(s.take(k)).len() as int),
    decreases k,
{
    broadcast use encode_utf8_valid_utf8;

    if k == 0 {
        assert(s.skip(0) =~= s);
        assert(encode_utf8(s.take(0)) =~= seq![]);
        assert(encode_utf8(s) =~= encode_utf8(s.take(0)) + encode_utf8(s.skip(0)));
    } else {
        let t = s.drop_first();
        lemma_encode_split(t, k - 1);
        assert(s.take(k).drop_first() =~= t.take(k - 1));
        assert(s.skip(k) =~= t.skip(k - 1));
        assert(s.take(k)[0] == s[0]);
        assert(encode_utf8(s) =~= encode_utf8(s.take(k)) + encode_utf8(s.skip(k)));
        encode_utf8_first_scalar(s);
        assert(pop_first_scalar(encode_utf8(s)) =~= encode_utf8(t));
    }
}

/// Number of bytes that `c` takes in UTF-8.
fn utf8_width(c: char) -> (r: usize)
    ensures
        r == encode_scalar(c as u32).len(),
{
    proof {
        char_is_scalar(c);
    }
    let u = c as u32;
    if u <= 0x7F {
        1
    } else if u <= 0x7FF {
        2
    } else if u <= 0xFFFF {
        3
    } else {
        4
    }
}

/// Cuts `s` after its first `k` characters, which take `w` bytes.
fn split_chars<'a>(s: &'a str, w: usize, Ghost(k): Ghost<int>) -> (r: (&'a str, &'a str))
    requires
        0 <= k <= s@.len(),
        w == encode_utf8(s@.take(k)).len(),
    ensures
        r.0@ == s@.take(k),
        r.1@ == s@.skip(k),
{
    broadcast use encode_utf8_decode_utf8;

    proof {
        lemma_encode_split(s@, k);
    }
    let (a, b) = s.split_at(w);
    proof {
        assert(a.spec_bytes() =~= encode_utf8(s@.take(k)));
        assert(b.spec_bytes() =~= encode_utf8(s@.skip(k)));
        assert(decode_utf8(encode_utf8(a@)) == a@);
        assert(decode_utf8(encode_utf8(b@)) == b@);
    }
    (a, b)
}

/// Where the first line of `s` ends: its length in bytes, whether a newline
/// follows it, and whether it ends in a carriage return.
fn first_line_extent(s: &str) -> (r: (usize, bool, bool))
    ensures
        line_len(s@) <= s@.len(),
        r.0 == encode_utf8(s@.take(line_len(s@) as int)).len(),
        r.1 == (line_len(s@) < s@.len()),
        r.1 ==> s@[line_len(s@) as int] == '\n',
        r.2 == (line_len(s@) > 0 && s@[line_len(s@) - 1] == '\r'),
{
    let mut it = s.chars();
    let mut w: usize = 0;
    let mut found: bool = false;
    let mut ends_cr: bool = false;
    let ghost mut k: int = 0;
    let total = s.as_bytes().len();
    proof {
        assert(s@.skip(0) =~= s@);
    }
    loop
        invariant_except_break
            0 <= k <= s@.len(),
            it.remaining() == s@.skip(k),
            !found,
        invariant
            total == encode_utf8(s@).len(),
            0 <= k <= s@.len(),
            w == encode_utf8(s@.take(k)).len(),
            forall|m: int| 0 <= m < k ==> s@[m] != '\n',
            ends_cr == (k > 0 && s@[k - 1] == '\r'),
        ensures
            found ==> k < s@.len() && s@[k] == '\n',
            !found ==> k == s@.len(),
        decreases s@.len() - k,
    {
        match it.next() {
            None => {
                break;
            },
            Some(c) => {
                if c == '\n' {
                    found = true;
                    break;
                }
                proof {
                    lemma_encode_split(s@.take(k + 1), k);
                    assert(s@.take(k + 1).take(k) =~= s@.take(k));
                    assert(s@.take(k + 1).skip(k) =~= seq![c]);
                    assert(seq![c].drop_first() =~= Seq::<char>::empty());
                    assert(encode_utf8(Seq::<char>::empty()) =~= Seq::<u8>::empty());
                    assert(encode_utf8(seq![c]) =~= encode_scalar(c as u32));
                    lemma_encode_split(s@, k + 1);
                }
                w = w + utf8_width(c);
                ends_cr = c == '\r';
                proof {
                    k = k + 1;
                }
            },
        }
    }
    proof {
        lemma_line_len(s@, k);
    }
    (w, found, ends_cr)
}

/// Splits `contents` into its lines, each a slice of `contents`.
pub fn lines<'a>(contents: &'a str) -> (r: Vec<&'a str>)
    ensures
        views(r@) == lines_of(contents@),
{
    let mut r: Vec<&'a str> = Vec::new();
    let mut rest: &'a str = contents;
    proof {
        assert(views(r@) =~= seq![]);
        assert(seq![] + lines_of(contents@) =~= lines_of(contents@));
    }
    while !rest.is_empty()
        invariant
            views(r@) + lines_of(rest@) == lines_of(contents@),
        decreases rest@.len(),
    {
        let (w, found, ends_cr) = first_line_extent(rest);
        let ghost n = line_len(rest@) as int;
        let (head, tail) = split_chars(rest, w, Ghost(n));
        let line: &'a str;
        if found {
            proof {
                assert(tail@.take(1) =~= seq!['\n']);
                assert(seq!['\n'].drop_first() =~= Seq::<char>::empty());
                assert(encode_utf8(Seq::<char>::empty()) =~= Seq::<u8>::empty());
                assert(encode_utf8(seq!['\n']).len() == 1);
                assert(tail@.skip(1) =~= rest@.skip(n + 1));
            }
            let (_, after) = split_chars(tail, 1, Ghost(1));
            if ends_cr {
                proof {
                    lemma_encode_split(head@, n - 1);
                    assert(head@.skip(n - 1) =~= seq!['\r']);
                    assert(seq!['\r'].drop_first() =~= Seq::<char>::empty());
                    assert(encode_utf8(Seq::<char>::empty()) =~= Seq::<u8>::empty());
                    assert(encode_utf8(seq!['\r']).len() == 1);
                    assert(encode_utf8(head@).len() == w);
                    assert(head@.take(n - 1) =~= strip_cr(head@));
                }
                let (bare, _) = split_chars(head, w - 1, Ghost(n - 1));
                line = bare;
            } else {
                line = head;
            }
            rest = after;
        } else {
            proof {
                assert(head@ =~= rest@);
                assert(tail@ =~= seq![]);
            }
            line = head;
            rest = tail;
        }
        let ghost before = views(r@);
        r.push(line);
        proof {
            assert(views(r@) =~= before.push(line@));
        }
    }
    proof {
        assert(views(r@) + seq![] =~= views(r@));
    }
    r
}

} // verus!
