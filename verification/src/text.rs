//! Character-level text helpers: whitespace splitting, hexadecimal and
//! decimal numerals, and the padding that the memory map listing uses.
use vstd::prelude::*;

verus! {

// ---------------------------------------------------------------------------
// Strings and characters
// ---------------------------------------------------------------------------

/// Appends one character to a string.
///
/// Trusted: wraps `String::push`, which the standard library documents as
/// appending the given `char` to the end of the string.
#[verifier::external_body]
pub(crate) fn push_char(s: &mut String, c: char)
    ensures
        final(s)@ == old(s)@.push(c),
{
    s.push(c);
}

/// The characters of a string slice, in order.
pub fn chars_of(s: &str) -> (v: Vec<char>)
    ensures
        v@ == s@,
{
    let mut v: Vec<char> = Vec::new();
    for c in it: s.chars()
        invariant
            v@ == it.seq().take(it.index() as int),
    {
        v.push(c);
    }
    v
}

/// A string holding exactly the given characters.
pub fn string_from_chars(v: &Vec<char>) -> (s: String)
    ensures
        s@ == v@,
{
    let mut s = String::new();
    for i in 0..v.len()
        invariant
            s@ == v@.take(i as int),
    {
        push_char(&mut s, v[i]);
        assert(v@.take(i + 1) =~= v@.take(i as int).push(v@[i as int]));
    }
    assert(v@.take(v.len() as int) =~= v@);
    s
}

/// Appends all of `src` to `dst`.
pub fn extend_chars(dst: &mut Vec<char>, src: &Vec<char>)
    ensures
        final(dst)@ == old(dst)@ + src@,
{
    let ghost start = dst@;
    for i in 0..src.len()
        invariant
            dst@ == start + src@.take(i as int),
    {
        dst.push(src[i]);
        assert(src@.take(i + 1) =~= src@.take(i as int).push(src@[i as int]));
    }
    assert(src@.take(src.len() as int) =~= src@);
}

// ---------------------------------------------------------------------------
// Whitespace and words
// ---------------------------------------------------------------------------

/// The Unicode `White_Space` property, the set of characters that
/// `char::is_whitespace` and `str::split_whitespace` treat as separators.
pub open spec fn is_white_space(c: char) -> bool {
    ||| ('\u{9}' <= c && c <= '\u{d}')
    ||| c == ' '
    ||| c == '\u{85}'
    ||| c == '\u{a0}'
    ||| c == '\u{1680}'
    ||| ('\u{2000}' <= c && c <= '\u{200a}')
    ||| c == '\u{2028}'
    ||| c == '\u{2029}'
    ||| c == '\u{202f}'
    ||| c == '\u{205f}'
    ||| c == '\u{3000}'
}

/// Whether `c` is a Unicode white-space character.
pub fn is_whitespace(c: char) -> (b: bool)
    ensures
        b == is_white_space(c),
{
    ('\u{9}' <= c && c <= '\u{d}') || c == ' ' || c == '\u{85}' || c == '\u{a0}' || c
        == '\u{1680}' || ('\u{2000}' <= c && c <= '\u{200a}') || c == '\u{2028}' || c
        == '\u{2029}' || c == '\u{202f}' || c == '\u{205f}' || c == '\u{3000}'
}

/// Left-to-right scan of `s` into the words finished so far and the word
/// still being read.
pub open spec fn word_scan(s: Seq<char>) -> (Seq<Seq<char>>, Seq<char>)
    decreases s.len(),
{
    if s.len() == 0 {
        (seq![], seq![])
    } else {
        let (done, cur) = word_scan(s.drop_last());
        let c = s.last();
        if is_white_space(c) {
            if cur.len() > 0 {
                (done.push(cur), seq![])
            } else {
                (done, cur)
            }
        } else {
            (done, cur.push(c))
        }
    }
}

/// The maximal runs of non-white-space characters of `s`, in order: what
/// `str::split_whitespace` yields.
pub open spec fn words(s: Seq<char>) -> Seq<Seq<char>> {
    let (done, cur) = word_scan(s);
    if cur.len() > 0 {
        done.push(cur)
    } else {
        done
    }
}

/// No word is empty and no word holds a white-space character.
pub open spec fn well_split(ws: Seq<Seq<char>>) -> bool {
    forall|i: int|
        0 <= i < ws.len() ==> #[trigger] ws[i].len() > 0 && forall|j: int|
            0 <= j < ws[i].len() ==> !is_white_space(#[trigger] ws[i][j])
}

proof fn lemma_word_scan_shape(s: Seq<char>)
    ensures
        well_split(word_scan(s).0),
        forall|j: int|
            0 <= j < word_scan(s).1.len() ==> !is_white_space(#[trigger] word_scan(s).1[j]),
    decreases s.len(),
{
    if s.len() > 0 {
        lemma_word_scan_shape(s.drop_last());
        let (done, cur) = word_scan(s.drop_last());
        let c = s.last();
        if is_white_space(c) {
            if cur.len() > 0 {
                assert forall|i: int| 0 <= i < done.push(cur).len() implies #[trigger] done.push(
                    cur,
                )[i].len() > 0 && forall|j: int|
                    0 <= j < done.push(cur)[i].len() ==> !is_white_space(
                        #[trigger] done.push(cur)[i][j],
                    ) by {
                    if i < done.len() {
                        assert(done.push(cur)[i] == done[i]);
                    } else {
                        assert(done.push(cur)[i] == cur);
                    }
                }
            }
        } else {
            assert forall|j: int| 0 <= j < cur.push(c).len() implies !is_white_space(
                #[trigger] cur.push(c)[j],
            ) by {
                if j < cur.len() {
                    assert(cur.push(c)[j] == cur[j]);
                }
            }
        }
    }
}

/// Law: every word that the splitter yields is non-empty and free of
/// white space.
pub proof fn lemma_words_well_split(s: Seq<char>)
    ensures
        well_split(words(s)),
{
    lemma_word_scan_shape(s);
    let (done, cur) = word_scan(s);
    if cur.len() > 0 {
        assert forall|i: int| 0 <= i < done.push(cur).len() implies #[trigger] done.push(
            cur,
        )[i].len() > 0 && forall|j: int|
            0 <= j < done.push(cur)[i].len() ==> !is_white_space(
                #[trigger] done.push(cur)[i][j],
            ) by {
            if i < done.len() {
                assert(done.push(cur)[i] == done[i]);
            } else {
                assert(done.push(cur)[i] == cur);
            }
        }
    }
}

/// No character of `w` is white space.
pub open spec fn no_white_space(w: Seq<char>) -> bool {
    forall|j: int| 0 <= j < w.len() ==> !is_white_space(#[trigger] w[j])
}

/// Reading characters that are not white space extends the current word.
pub proof fn lemma_scan_word(s: Seq<char>, w: Seq<char>)
    requires
        no_white_space(w),
    ensures
        word_scan(s + w) == (word_scan(s).0, word_scan(s).1 + w),
    decreases w.len(),
{
    if w.len() == 0 {
        assert(s + w =~= s);
        assert(word_scan(s).1 + w =~= word_scan(s).1);
    } else {
        assert((s + w).drop_last() =~= s + w.drop_last());
        assert(w[w.len() - 1] == (s + w).last());
        lemma_scan_word(s, w.drop_last());
        assert(word_scan(s).1 + w.drop_last() + seq![w.last()] =~= word_scan(s).1 + w);
        assert((word_scan(s).1 + w.drop_last()).push(w.last()) =~= word_scan(s).1 + w);
    }
}

/// Reading white space after `s` finishes its words.
pub proof fn lemma_scan_space(s: Seq<char>, sp: Seq<char>)
    requires
        sp.len() > 0,
        forall|j: int| 0 <= j < sp.len() ==> is_white_space(#[trigger] sp[j]),
    ensures
        word_scan(s + sp) == (words(s), Seq::<char>::empty()),
    decreases sp.len(),
{
    assert((s + sp).drop_last() =~= s + sp.drop_last());
    assert((s + sp).last() == sp[sp.len() - 1]);
    if sp.len() > 1 {
        lemma_scan_space(s, sp.drop_last());
    } else {
        assert(s + sp.drop_last() =~= s);
    }
}

/// Splits a character sequence at white space, like `str::split_whitespace`.
pub fn split_words(s: &Vec<char>) -> (ws: Vec<Vec<char>>)
    ensures
        ws.deep_view() == words(s@),
{
    let mut done: Vec<Vec<char>> = Vec::new();
    let mut cur: Vec<char> = Vec::new();
    for i in 0..s.len()
        invariant
            (done.deep_view(), cur@) == word_scan(s@.take(i as int)),
    {
        let c = s[i];
        assert(s@.take(i + 1).drop_last() =~= s@.take(i as int));
        if is_whitespace(c) {
            if cur.len() > 0 {
                let ghost d = done.deep_view();
                let ghost w = cur@;
                assert(cur.deep_view() =~= cur@);
                done.push(cur);
                cur = Vec::new();
                assert(done.deep_view() =~= d.push(w));
            }
        } else {
            cur.push(c);
        }
    }
    assert(s@.take(s.len() as int) =~= s@);
    if cur.len() > 0 {
        let ghost d = done.deep_view();
        let ghost w = cur@;
        assert(cur.deep_view() =~= cur@);
        done.push(cur);
        assert(done.deep_view() =~= d.push(w));
    }
    done
}

/// The white-space separated words of a string, like
/// `str::split_whitespace` collected into strings.
pub fn split_whitespace(s: &str) -> (ws: Vec<String>)
    ensures
        ws.len() == words(s@).len(),
        forall|i: int| 0 <= i < ws.len() ==> #[trigger] ws[i]@ == words(s@)[i],
{
    let cs = chars_of(s);
    let parts = split_words(&cs);
    let mut out: Vec<String> = Vec::new();
    for i in 0..parts.len()
        invariant
            parts.deep_view() == words(s@),
            out.len() == i,
            forall|k: int| 0 <= k < i ==> #[trigger] out[k]@ == words(s@)[k],
    {
        assert(parts.deep_view()[i as int] == parts[i as int]@);
        out.push(string_from_chars(&parts[i]));
    }
    out
}

// ---------------------------------------------------------------------------
// Numerals
// ---------------------------------------------------------------------------

/// The lower-case hexadecimal digit for `d < 16`.
pub open spec fn hex_char(d: nat) -> char {
    if d < 10 {
        (d + 48) as char
    } else {
        (d + 87) as char
    }
}

/// The decimal digit for `d < 10`.
pub open spec fn dec_char(d: nat) -> char {
    (d + 48) as char
}

/// Lower-case hexadecimal numeral of `n`, without leading zeros (`"0"` for
/// zero): what `{:x}` prints.
pub open spec fn hex_text(n: nat) -> Seq<char>
    decreases n,
{
    if n < 16 {
        seq![hex_char(n)]
    } else {
        hex_text(n / 16).push(hex_char(n % 16))
    }
}

/// Decimal numeral of `n`, without leading zeros: what `{}` prints for an
/// unsigned integer.
pub open spec fn dec_text(n: nat) -> Seq<char>
    decreases n,
{
    if n < 10 {
        seq![dec_char(n)]
    } else {
        dec_text(n / 10).push(dec_char(n % 10))
    }
}

fn hex_digit(d: u64) -> (c: char)
    requires
        d < 16,
    ensures
        c == hex_char(d as nat),
{
    if d < 10 {
        ((d as u8) + 48u8) as char
    } else {
        ((d as u8) + 87u8) as char
    }
}

fn dec_digit(d: u64) -> (c: char)
    requires
        d < 10,
    ensures
        c == dec_char(d as nat),
{
    ((d as u8) + 48u8) as char
}

/// Hexadecimal numeral of `n`, as characters.
pub fn hex_chars(n: u64) -> (v: Vec<char>)
    ensures
        v@ == hex_text(n as nat),
    decreases n,
{
    if n < 16 {
        let mut v = Vec::new();
        v.push(hex_digit(n));
        assert(v@ =~= seq![hex_char(n as nat)]);
        v
    } else {
        let mut v = hex_chars(n / 16);
        v.push(hex_digit(n % 16));
        v
    }
}

/// Decimal numeral of `n`, as characters.
pub fn dec_chars(n: u64) -> (v: Vec<char>)
    ensures
        v@ == dec_text(n as nat),
    decreases n,
{
    if n < 10 {
        let mut v = Vec::new();
        v.push(dec_digit(n));
        assert(v@ =~= seq![dec_char(n as nat)]);
        v
    } else {
        let mut v = dec_chars(n / 10);
        v.push(dec_digit(n % 10));
        v
    }
}

// ---------------------------------------------------------------------------
// Padding
// ---------------------------------------------------------------------------

/// `s` right-aligned in a field of `width` characters, filled with `fill` on
/// the left; unchanged when it is already as wide (`{:>w}`, `{:0>w}`).
pub open spec fn pad_left(s: Seq<char>, width: nat, fill: char) -> Seq<char> {
    if s.len() >= width {
        s
    } else {
        Seq::new((width - s.len()) as nat, |i: int| fill) + s
    }
}

/// `s` left-aligned in a field of `width` characters, filled with `fill` on
/// the right (`{:<w}`).
pub open spec fn pad_right(s: Seq<char>, width: nat, fill: char) -> Seq<char> {
    if s.len() >= width {
        s
    } else {
        s + Seq::new((width - s.len()) as nat, |i: int| fill)
    }
}

/// Appends `s` to `out`, right-aligned in a field of `width` characters.
pub fn push_padded_left(out: &mut Vec<char>, s: &Vec<char>, width: usize, fill: char)
    ensures
        final(out)@ == old(out)@ + pad_left(s@, width as nat, fill),
{
    let ghost start = out@;
    if s.len() < width {
        let n = width - s.len();
        for i in 0..n
            invariant
                out@ == start + Seq::new(i as nat, |k: int| fill),
        {
            out.push(fill);
            assert(Seq::new((i + 1) as nat, |k: int| fill) =~= Seq::new(i as nat, |k: int| fill).push(fill));
        }
        extend_chars(out, s);
        assert(out@ =~= start + pad_left(s@, width as nat, fill));
    } else {
        extend_chars(out, s);
    }
}

/// Appends `s` to `out`, left-aligned in a field of `width` characters.
pub fn push_padded_right(out: &mut Vec<char>, s: &Vec<char>, width: usize, fill: char)
    ensures
        final(out)@ == old(out)@ + pad_right(s@, width as nat, fill),
{
    let ghost start = out@;
    extend_chars(out, s);
    if s.len() < width {
        let n = width - s.len();
        for i in 0..n
            invariant
                out@ == start + s@ + Seq::new(i as nat, |k: int| fill),
        {
            out.push(fill);
            assert(Seq::new((i + 1) as nat, |k: int| fill) =~= Seq::new(i as nat, |k: int| fill).push(fill));
        }
        assert(out@ =~= start + pad_right(s@, width as nat, fill));
    }
}


// ---------------------------------------------------------------------------
// Reading hexadecimal numerals
// ---------------------------------------------------------------------------

/// An ASCII hexadecimal digit, either case.
pub open spec fn is_hex_digit(c: char) -> bool {
    ||| ('0' <= c && c <= '9')
    ||| ('a' <= c && c <= 'f')
    ||| ('A' <= c && c <= 'F')
}

/// The value of a hexadecimal digit.
pub open spec fn hex_digit_value(c: char) -> nat {
    if '0' <= c && c <= '9' {
        (c as nat - 48) as nat
    } else if 'a' <= c && c <= 'f' {
        (c as nat - 87) as nat
    } else {
        (c as nat - 55) as nat
    }
}

pub open spec fn all_hex_digits(s: Seq<char>) -> bool {
    forall|i: int| 0 <= i < s.len() ==> is_hex_digit(#[trigger] s[i])
}

/// The number that a string of hexadecimal digits denotes.
pub open spec fn hex_number(s: Seq<char>) -> nat
    decreases s.len(),
{
    if s.len() == 0 {
        0
    } else {
        hex_number(s.drop_last()) * 16 + hex_digit_value(s.last())
    }
}

/// What `u64::from_str_radix(s, 16)` accepts and returns: an optional `+`
/// followed by at least one hexadecimal digit, denoting a value that fits in
/// 64 bits.
pub open spec fn hex_u64(s: Seq<char>) -> Option<u64> {
    let d = if s.len() > 0 && s[0] == '+' {
        s.drop_first()
    } else {
        s
    };
    if d.len() > 0 && all_hex_digits(d) && hex_number(d) <= u64::MAX {
        Some(hex_number(d) as u64)
    } else {
        None
    }
}

proof fn lemma_hex_number_prefix(s: Seq<char>, k: int)
    requires
        0 <= k <= s.len(),
    ensures
        hex_number(s.take(k)) <= hex_number(s),
    decreases s.len(),
{
    if k < s.len() {
        assert(s.drop_last().take(k) =~= s.take(k));
        lemma_hex_number_prefix(s.drop_last(), k);
    } else {
        assert(s.take(k) =~= s);
    }
}

fn hex_digit_val(c: char) -> (r: Option<u64>)
    ensures
        is_hex_digit(c) ==> r == Some(hex_digit_value(c) as u64) && r->0 < 16,
        !is_hex_digit(c) ==> r is None,
{
    if '0' <= c && c <= '9' {
        Some((c as u64) - 48)
    } else if 'a' <= c && c <= 'f' {
        Some((c as u64) - 87)
    } else if 'A' <= c && c <= 'F' {
        Some((c as u64) - 55)
    } else {
        None
    }
}

/// Reads a hexadecimal numeral, as `u64::from_str_radix(s, 16)` does.
pub fn parse_hex_u64(s: &Vec<char>) -> (r: Option<u64>)
    ensures
        r == hex_u64(s@),
{
    let start: usize = if s.len() > 0 && s[0] == '+' {
        1
    } else {
        0
    };
    let ghost d = if s@.len() > 0 && s@[0] == '+' {
        s@.drop_first()
    } else {
        s@
    };
    assert(d =~= s@.subrange(start as int, s.len() as int));
    assert(hex_u64(s@) == if d.len() > 0 && all_hex_digits(d) && hex_number(d) <= u64::MAX {
        Some(hex_number(d) as u64)
    } else {
        None
    });
    if start == s.len() {
        return None;
    }
    let mut v: u64 = 0;
    let mut i: usize = start;
    while i < s.len()
        invariant
            start <= i <= s.len(),
            d == s@.subrange(start as int, s.len() as int),
            d.len() > 0,
            hex_u64(s@) == if all_hex_digits(d) && hex_number(d) <= u64::MAX {
                Some(hex_number(d) as u64)
            } else {
                None
            },
            all_hex_digits(d.take(i - start)),
            v as nat == hex_number(d.take(i - start)),
        decreases s.len() - i,
    {
        let c = s[i];
        assert(d[i - start] == c);
        match hex_digit_val(c) {
            None => {
                assert(!is_hex_digit(d[i - start]));
                assert(!all_hex_digits(d));
                return None;
            },
            Some(dv) => {
                assert(d.take(i - start + 1).drop_last() =~= d.take(i - start));
                assert(d.take(i - start + 1).last() == c);
                assert(all_hex_digits(d.take(i - start + 1)));
                assert(hex_number(d.take(i - start + 1)) == v * 16 + dv);
                match v.checked_mul(16) {
                    None => {
                        proof {
                            lemma_hex_number_prefix(d, i - start + 1);
                        }
                        return None;
                    },
                    Some(v16) => match v16.checked_add(dv) {
                        None => {
                            proof {
                                lemma_hex_number_prefix(d, i - start + 1);
                            }
                            return None;
                        },
                        Some(nv) => {
                            v = nv;
                        },
                    },
                }
            },
        }
        i = i + 1;
    }
    assert(d.take(i - start) =~= d);
    Some(v)
}

proof fn lemma_hex_char(d: nat)
    requires
        d < 16,
    ensures
        is_hex_digit(hex_char(d)),
        hex_digit_value(hex_char(d)) == d,
        hex_char(d) != '+',
{
}

proof fn lemma_hex_text_reads_back(n: nat)
    ensures
        all_hex_digits(hex_text(n)),
        hex_number(hex_text(n)) == n,
        hex_text(n).len() > 0,
    decreases n,
{
    if n < 16 {
        lemma_hex_char(n);
        let t = hex_text(n);
        assert(t.drop_last() =~= Seq::<char>::empty());
        assert(t.last() == hex_char(n));
        assert(hex_number(t) == hex_number(t.drop_last()) * 16 + hex_digit_value(t.last()));
    } else {
        lemma_hex_text_reads_back(n / 16);
        lemma_hex_char(n % 16);
        let t = hex_text(n);
        assert(t.drop_last() =~= hex_text(n / 16));
        assert(t.last() == hex_char(n % 16));
        assert(hex_number(t) == hex_number(t.drop_last()) * 16 + hex_digit_value(t.last()));
        assert(n == (n / 16) * 16 + n % 16);
        assert forall|i: int| 0 <= i < t.len() implies is_hex_digit(#[trigger] t[i]) by {
            if i < t.len() - 1 {
                assert(t[i] == hex_text(n / 16)[i]);
            }
        }
    }
}

proof fn lemma_leading_zeros(z: Seq<char>, t: Seq<char>)
    requires
        forall|i: int| 0 <= i < z.len() ==> #[trigger] z[i] == '0',
    ensures
        hex_number(z + t) == hex_number(t),
    decreases t.len() + z.len(),
{
    if t.len() > 0 {
        assert((z + t).drop_last() =~= z + t.drop_last());
        lemma_leading_zeros(z, t.drop_last());
    } else if z.len() > 0 {
        assert((z + t).drop_last() =~= z.drop_last() + t);
        lemma_leading_zeros(z.drop_last(), t);
    } else {
        assert(z + t =~= t);
    }
}

/// Law: a hexadecimal numeral printed with `{:x}`, or zero-padded with
/// `{:0>w$x}`, reads back with `u64::from_str_radix(.., 16)` as the number
/// that was printed.
pub proof fn lemma_hex_roundtrip(n: u64, width: nat)
    ensures
        hex_u64(pad_left(hex_text(n as nat), width, '0')) == Some(n),
{
    let t = hex_text(n as nat);
    lemma_hex_text_reads_back(n as nat);
    let p = pad_left(t, width, '0');
    if t.len() >= width {
        assert(p == t);
        assert(is_hex_digit(t[0]));
    } else {
        let z = Seq::new((width - t.len()) as nat, |i: int| '0');
        assert(p == z + t);
        lemma_leading_zeros(z, t);
        assert(p[0] == '0');
        assert forall|i: int| 0 <= i < p.len() implies is_hex_digit(#[trigger] p[i]) by {
            if i >= z.len() {
                assert(p[i] == t[i - z.len()]);
            }
        }
    }
}


pub open spec fn pow16(k: nat) -> nat
    decreases k,
{
    if k == 0 {
        1
    } else {
        16 * pow16((k - 1) as nat)
    }
}

proof fn lemma_hex_text_len_bound(n: nat, k: nat)
    requires
        k >= 1,
        n < pow16(k),
    ensures
        hex_text(n).len() <= k,
    decreases n,
{
    if n >= 16 {
        assert(k >= 2) by {
            if k == 1 {
                assert(pow16(0) == 1);
            }
        }
        assert(n / 16 < pow16((k - 1) as nat));
        lemma_hex_text_len_bound(n / 16, (k - 1) as nat);
    }
}

/// The hexadecimal numeral of a 64-bit number has at most sixteen digits.
pub proof fn lemma_hex_text_len(n: nat)
    requires
        n <= u64::MAX,
    ensures
        hex_text(n).len() <= 16,
{
    reveal_with_fuel(pow16, 17);
    assert(pow16(16) == 0x1_0000_0000_0000_0000);
    lemma_hex_text_len_bound(n, 16);
}


// ---------------------------------------------------------------------------
// Carriage returns
// ---------------------------------------------------------------------------

/// `s` holds no carriage return.
pub open spec fn no_carriage_return(s: Seq<char>) -> bool {
    forall|i: int| 0 <= i < s.len() ==> #[trigger] s[i] != '\r'
}

pub proof fn lemma_no_carriage_return_concat(a: Seq<char>, b: Seq<char>)
    requires
        no_carriage_return(a),
        no_carriage_return(b),
    ensures
        no_carriage_return(a + b),
{
    assert forall|i: int| 0 <= i < (a + b).len() implies #[trigger] (a + b)[i] != '\r' by {
        if i < a.len() {
            assert((a + b)[i] == a[i]);
        } else {
            assert((a + b)[i] == b[i - a.len()]);
        }
    }
}

/// A text without carriage returns does not contain one.
pub proof fn lemma_no_carriage_return_contains(s: Seq<char>)
    requires
        no_carriage_return(s),
    ensures
        !s.contains('\r'),
{
    if s.contains('\r') {
        let i = choose|i: int| 0 <= i < s.len() && s[i] == '\r';
        assert(s[i] != '\r');
    }
}

/// A word holds no carriage return: it is white space.
pub proof fn lemma_word_no_carriage_return(w: Seq<char>)
    requires
        no_white_space(w),
    ensures
        no_carriage_return(w),
{
    assert forall|i: int| 0 <= i < w.len() implies #[trigger] w[i] != '\r' by {
        assert(!is_white_space(w[i]));
    }
}

pub proof fn lemma_numerals_no_carriage_return(n: nat)
    ensures
        no_carriage_return(hex_text(n)),
        no_carriage_return(dec_text(n)),
    decreases n,
{
    if n >= 16 {
        lemma_numerals_no_carriage_return(n / 16);
        assert(hex_text(n) == hex_text(n / 16).push(hex_char(n % 16)));
        assert(hex_text(n / 16).push(hex_char(n % 16)) =~= hex_text(n / 16) + seq![hex_char(n % 16)]);
        lemma_no_carriage_return_concat(hex_text(n / 16), seq![hex_char(n % 16)]);
    }
    if n >= 10 {
        lemma_numerals_no_carriage_return(n / 10);
        assert(dec_text(n / 10).push(dec_char(n % 10)) =~= dec_text(n / 10) + seq![dec_char(n % 10)]);
        lemma_no_carriage_return_concat(dec_text(n / 10), seq![dec_char(n % 10)]);
    }
}

pub proof fn lemma_padding_no_carriage_return(s: Seq<char>, width: nat, fill: char)
    requires
        no_carriage_return(s),
        fill != '\r',
    ensures
        no_carriage_return(pad_left(s, width, fill)),
        no_carriage_return(pad_right(s, width, fill)),
{
    if s.len() < width {
        let f = Seq::new((width - s.len()) as nat, |i: int| fill);
        assert(no_carriage_return(f));
        lemma_no_carriage_return_concat(f, s);
        lemma_no_carriage_return_concat(s, f);
    }
}

} // verus!
