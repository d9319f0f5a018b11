use vstd::prelude::*;
use vstd::string::*;
use vstd::utf8::*;

verus! {

broadcast use is_ascii_spec_bytes, encode_utf8_valid_utf8, encode_utf8_decode_utf8;

/// An ASCII letter.
pub open spec fn is_alpha(c: char) -> bool {
    ('a' <= c && c <= 'z') || ('A' <= c && c <= 'Z')
}

/// An ASCII decimal digit.
pub open spec fn is_digit(c: char) -> bool {
    '0' <= c && c <= '9'
}

/// An ASCII letter or digit.
pub open spec fn is_alnum(c: char) -> bool {
    is_alpha(c) || is_digit(c)
}

/// A byte with ASCII upper-case letters mapped to lower case.
pub open spec fn fold_byte(b: u8) -> u8 {
    if 65 <= b && b <= 90 {
        (b + 32) as u8
    } else {
        b
    }
}

/// The UTF-8 encoding of `s` with its ASCII letters lowered.
pub open spec fn folded(s: Seq<char>) -> Seq<u8> {
    encode_utf8(s).map_values(|b: u8| fold_byte(b))
}

/// Equality up to the case of ASCII letters.
pub open spec fn same_ignoring_case(a: Seq<char>, b: Seq<char>) -> bool {
    folded(a) == folded(b)
}

/// The bytes of an ASCII string are its characters.
pub proof fn lemma_ascii_bytes(s: &str)
    requires
        is_ascii(s),
    ensures
        s.spec_bytes().len() == s@.len(),
        forall|i: int|
            0 <= i < s@.len() ==> s.spec_bytes()[i] as int == #[trigger] s@[i] as int,
{
    assert forall|i: int| 0 <= i < s@.len() implies s.spec_bytes()[i] as int == #[trigger] s@[i] as int by {
        assert('\0' <= s@[i] <= '\u{7f}');
    }
}

/// Every index of an ASCII text is a character boundary of its encoding.
proof fn lemma_ascii_boundary(s: Seq<char>, i: int)
    requires
        is_ascii_chars(s),
        0 <= i <= s.len(),
    ensures
        is_char_boundary(encode_utf8(s), i),
{
    is_ascii_chars_encode_utf8(s);
    is_char_boundary_start_end_of_seq(encode_utf8(s));
    if i < s.len() {
        assert('\0' <= s[i] <= '\u{7f}');
        is_char_boundary_iff_not_is_continuation_byte(encode_utf8(s), i);
    }
}

/// An ASCII text is the only text with its encoding.
proof fn lemma_ascii_decode(a: Seq<char>, s: Seq<char>, i: int, j: int)
    requires
        is_ascii_chars(s),
        0 <= i <= j <= s.len(),
        encode_utf8(a) == encode_utf8(s).subrange(i, j),
    ensures
        a == s.subrange(i, j),
{
    let sub = s.subrange(i, j);
    assert(is_ascii_chars(sub));
    is_ascii_chars_encode_utf8(s);
    is_ascii_chars_encode_utf8(sub);
    assert(encode_utf8(sub) =~= encode_utf8(s).subrange(i, j));
    assert(decode_utf8(encode_utf8(a)) == a);
    assert(decode_utf8(encode_utf8(sub)) == sub);
}

/// The characters `start..end` of an ASCII string, as a new string.
pub fn ascii_slice(s: &str, start: usize, end: usize) -> (r: String)
    requires
        is_ascii(s),
        start <= end <= s@.len(),
    ensures
        r@ == s@.subrange(start as int, end as int),
        is_ascii_chars(r@),
{
    proof {
        lemma_ascii_boundary(s@, end as int);
        is_ascii_chars_encode_utf8(s@);
    }
    let (head, _) = s.split_at(end);
    proof {
        lemma_ascii_decode(head@, s@, 0, end as int);
        assert(head@ == s@.subrange(0, end as int));
        assert(is_ascii_chars(head@));
        lemma_ascii_boundary(head@, start as int);
    }
    let (_, mid) = head.split_at(start);
    proof {
        is_ascii_chars_encode_utf8(head@);
        lemma_ascii_decode(mid@, head@, start as int, end as int);
        assert(head@.subrange(start as int, end as int) =~= s@.subrange(start as int, end as int));
    }
    mid.to_owned()
}

/// `s` cut at every `sep`, as `str::split` cuts it: `k` separators give
/// `k + 1` pieces, some of them possibly empty.
pub open spec fn split_on(s: Seq<char>, sep: char) -> Seq<Seq<char>>
    decreases s.len(),
{
    if s.len() == 0 {
        seq![Seq::<char>::empty()]
    } else {
        let p = split_on(s.drop_last(), sep);
        if s.last() == sep {
            p.push(Seq::<char>::empty())
        } else {
            p.update(p.len() - 1, p.last().push(s.last()))
        }
    }
}

pub proof fn lemma_split_len(s: Seq<char>, sep: char)
    ensures
        split_on(s, sep).len() >= 1,
    decreases s.len(),
{
    if s.len() > 0 {
        lemma_split_len(s.drop_last(), sep);
    }
}

/// Where every character of every piece of `split_on(s, sep)` has the
/// property `ok`, every character of `s` is `sep` or has it.
pub proof fn lemma_split_chars(s: Seq<char>, sep: char, ok: spec_fn(char) -> bool)
    requires
        forall|i: int, j: int|
            0 <= i < split_on(s, sep).len() && 0 <= j < split_on(s, sep)[i].len()
                ==> ok(#[trigger] split_on(s, sep)[i][j]),
    ensures
        forall|k: int| 0 <= k < s.len() ==> #[trigger] s[k] == sep || ok(s[k]),
    decreases s.len(),
{
    if s.len() > 0 {
        let t = s.drop_last();
        let p = split_on(t, sep);
        let q = split_on(s, sep);
        lemma_split_len(t, sep);
        assert forall|i: int, j: int| 0 <= i < p.len() && 0 <= j < p[i].len() implies ok(#[trigger] p[i][j]) by {
            if s.last() == sep || i < p.len() - 1 {
                assert(q[i] == p[i]);
            } else {
                assert(q[i] == p[i].push(s.last()));
                assert(q[i][j] == p[i][j]);
            }
        }
        lemma_split_chars(t, sep, ok);
        assert forall|k: int| 0 <= k < s.len() implies #[trigger] s[k] == sep || ok(s[k]) by {
            if k < t.len() {
                assert(s[k] == t[k]);
            } else if s.last() != sep {
                let i = p.len() - 1;
                assert(q[i] == p[i].push(s.last()));
                assert(q[i][p[i].len() as int] == s[k]);
            }
        }
    }
}

/// Views of a vector of strings.
pub open spec fn views(v: Seq<String>) -> Seq<Seq<char>> {
    v.map_values(|x: String| x@)
}

/// The pieces of an ASCII string between the separators `sep`.
pub fn split_ascii(s: &str, sep: char) -> (r: Vec<String>)
    requires
        is_ascii(s),
        sep <= '\u{7f}',
    ensures
        views(r@) == split_on(s@, sep),
        forall|i: int| 0 <= i < r@.len() ==> is_ascii_chars(#[trigger] r@[i]@),
{
    let bytes = s.as_bytes();
    let n = bytes.len();
    let sep_byte = sep as u8;
    proof {
        lemma_ascii_bytes(s);
    }
    let mut out: Vec<String> = Vec::new();
    proof {
        assert(views(out@) =~= Seq::<Seq<char>>::empty());
        assert(s@.subrange(0, 0) =~= Seq::<char>::empty());
        assert(views(out@).push(s@.subrange(0, 0)) =~= seq![Seq::<char>::empty()]);
        assert(s@.take(0).len() == 0);
    }
    let mut start: usize = 0;
    let mut i: usize = 0;
    while i < n
        invariant
            n == s@.len(),
            bytes@ == s.spec_bytes(),
            sep_byte as int == sep as int,
            s.spec_bytes().len() == s@.len(),
            forall|k: int| 0 <= k < s@.len() ==> s.spec_bytes()[k] as int == #[trigger] s@[k] as int,
            is_ascii(s),
            start <= i <= n,
            forall|k: int| 0 <= k < out@.len() ==> is_ascii_chars(#[trigger] out@[k]@),
            views(out@).push(s@.subrange(start as int, i as int)) == split_on(s@.take(i as int), sep),
        decreases n - i,
    {
        proof {
            lemma_split_len(s@.take(i as int), sep);
            assert(s@.take(i as int + 1).drop_last() =~= s@.take(i as int));
        }
        if bytes[i] == sep_byte {
            let piece = ascii_slice(s, start, i);
            let ghost before = out@;
            out.push(piece);
            proof {
                assert(views(out@) =~= views(before).push(s@.subrange(start as int, i as int)));
                assert(s@.subrange(i as int + 1, i as int + 1) =~= Seq::<char>::empty());
            }
            start = i + 1;
        } else {
            proof {
                let p = split_on(s@.take(i as int), sep);
                assert(s@.subrange(start as int, i as int + 1) =~= s@.subrange(start as int, i as int).push(s@[i as int]));
                assert(views(out@).push(s@.subrange(start as int, i as int + 1)) =~= p.update(p.len() - 1, p.last().push(s@[i as int])));
            }
        }
        i = i + 1;
    }
    let last = ascii_slice(s, start, n);
    let ghost before = out@;
    out.push(last);
    proof {
        assert(s@.take(n as int) =~= s@);
        assert(views(out@) =~= views(before).push(s@.subrange(start as int, n as int)));
    }
    out
}

/// Whether every character of `s` is an ASCII letter.
pub fn all_alpha(s: &str) -> (r: bool)
    ensures
        r == forall|i: int| 0 <= i < s@.len() ==> is_alpha(#[trigger] s@[i]),
{
    if !s.is_ascii() {
        proof {
            let i = choose|i: int| 0 <= i < s@.len() && !('\0' <= #[trigger] s@[i] <= '\u{7f}');
            assert(!is_alpha(s@[i]));
        }
        return false;
    }
    proof {
        lemma_ascii_bytes(s);
    }
    let bytes = s.as_bytes();
    let mut i: usize = 0;
    while i < bytes.len()
        invariant
            bytes@ == s.spec_bytes(),
            s.spec_bytes().len() == s@.len(),
            forall|k: int| 0 <= k < s@.len() ==> s.spec_bytes()[k] as int == #[trigger] s@[k] as int,
            i <= s@.len(),
            forall|k: int| 0 <= k < i ==> is_alpha(#[trigger] s@[k]),
        decreases s@.len() - i,
    {
        let b = bytes[i];
        proof {
            assert(s@[i as int] as int == b as int);
        }
        if !((97 <= b && b <= 122) || (65 <= b && b <= 90)) {
            return false;
        }
        i = i + 1;
    }
    true
}

} // verus!
