//! Verified serialization of annotations for the record store.
//!
//! A record is a sequence of length-prefixed chunks: each chunk is a
//! 20-digit decimal length followed by that many characters. Numbers travel
//! as 20-digit chunks of their own. Decoding is specified as a function and
//! the encoder is proved to round-trip through it, so a stored record always
//! decodes back to the annotation that produced it.

use vstd::prelude::*;

use crate::annotation::Annotation;
use crate::annotation::AnnotationView;
use crate::utils::from_chars;
use crate::utils::to_chars;
use crate::utils::views_of;

verus! {

/// One more than the largest count or length the format can carry.
pub open spec fn enc_limit() -> nat {
    0x1_0000_0000_0000_0000
}

/// Ten to the `w`.
pub open spec fn pow10(w: nat) -> nat
    decreases w,
{
    if w == 0 {
        1
    } else {
        10 * pow10((w - 1) as nat)
    }
}

/// The decimal digit character for `d` (valid for `d < 10`).
pub open spec fn digit_char(d: nat) -> char {
    if d == 0 {
        '0'
    } else if d == 1 {
        '1'
    } else if d == 2 {
        '2'
    } else if d == 3 {
        '3'
    } else if d == 4 {
        '4'
    } else if d == 5 {
        '5'
    } else if d == 6 {
        '6'
    } else if d == 7 {
        '7'
    } else if d == 8 {
        '8'
    } else {
        '9'
    }
}

/// Whether `c` is a decimal digit character.
pub open spec fn is_digit(c: char) -> bool {
    c == '0' || c == '1' || c == '2' || c == '3' || c == '4' || c == '5' || c == '6' || c == '7'
        || c == '8' || c == '9'
}

/// The value of a digit character (valid when `is_digit(c)`).
pub open spec fn digit_val(c: char) -> nat {
    if c == '0' {
        0
    } else if c == '1' {
        1
    } else if c == '2' {
        2
    } else if c == '3' {
        3
    } else if c == '4' {
        4
    } else if c == '5' {
        5
    } else if c == '6' {
        6
    } else if c == '7' {
        7
    } else if c == '8' {
        8
    } else {
        9
    }
}

/// `n` written as exactly `width` decimal digits, leading zeros included.
pub open spec fn dec_digits(n: nat, width: nat) -> Seq<char>
    decreases width,
{
    if width == 0 {
        Seq::empty()
    } else {
        dec_digits(n / 10, (width - 1) as nat).push(digit_char(n % 10))
    }
}

/// Whether every character of `s` is a decimal digit.
pub open spec fn all_digits(s: Seq<char>) -> bool {
    forall|i: int| 0 <= i < s.len() ==> is_digit(#[trigger] s[i])
}

/// The numeric value of a digit string.
pub open spec fn dec_val(s: Seq<char>) -> nat
    decreases s.len(),
{
    if s.len() == 0 {
        0
    } else {
        dec_val(s.drop_last()) * 10 + digit_val(s.last())
    }
}

/// Writing `n < pow10(width)` in `width` digits is faithful: the digits are
/// digits, there are `width` of them, and they read back as `n`.
pub proof fn lemma_dec_digits(n: nat, width: nat)
    requires
        n < pow10(width),
    ensures
        dec_digits(n, width).len() == width,
        all_digits(dec_digits(n, width)),
        dec_val(dec_digits(n, width)) == n,
    decreases width,
{
    if width == 0 {
    } else {
        let q = n / 10;
        let r = n % 10;
        assert(q < pow10((width - 1) as nat)) by {
            if q >= pow10((width - 1) as nat) {
                assert(n >= 10 * q >= 10 * pow10((width - 1) as nat)) by (nonlinear_arith)
                    requires
                        q == n / 10,
                        q >= pow10((width - 1) as nat);
            }
        }
        lemma_dec_digits(q, (width - 1) as nat);
        let s = dec_digits(n, width);
        assert(s.drop_last() =~= dec_digits(q, (width - 1) as nat));
        assert(s.last() == digit_char(r));
        assert(r < 10);
        assert(digit_val(digit_char(r)) == r);
        assert(dec_val(s) == q * 10 + r);
        assert(q * 10 + r == n) by (nonlinear_arith)
            requires
                q == n / 10,
                r == n % 10;
        assert forall|i: int| 0 <= i < s.len() implies is_digit(#[trigger] s[i]) by {
            if i < s.len() - 1 {
                assert(s[i] == dec_digits(q, (width - 1) as nat)[i]);
            }
        }
    }
}

/// Ten to the twenty exceeds every value the format stores.
pub proof fn lemma_pow10_20()
    ensures
        pow10(20) == 100000000000000000000,
{
    reveal_with_fuel(pow10, 21);
}

/// Pushes `n` as `width` decimal digits.
fn push_digits(n: u64, width: usize, out: &mut Vec<char>)
    ensures
        final(out)@ == old(out)@ + dec_digits(n as nat, width as nat),
    decreases width,
{
    if width == 0 {
        proof {
            assert(old(out)@ + dec_digits(n as nat, 0) =~= old(out)@);
        }
        return ;
    }
    push_digits(n / 10, width - 1, out);
    let d = (n % 10) as u8;
    let c: char = if d == 0 {
        '0'
    } else if d == 1 {
        '1'
    } else if d == 2 {
        '2'
    } else if d == 3 {
        '3'
    } else if d == 4 {
        '4'
    } else if d == 5 {
        '5'
    } else if d == 6 {
        '6'
    } else if d == 7 {
        '7'
    } else if d == 8 {
        '8'
    } else {
        '9'
    };
    proof {
        assert(n as nat % 10 == d as nat);
        assert(c == digit_char(n as nat % 10));
    }
    out.push(c);
    proof {
        assert(old(out)@ + dec_digits(n as nat, width as nat) =~= (old(out)@ + dec_digits(
            n as nat / 10,
            (width - 1) as nat,
        )).push(digit_char(n as nat % 10)));
    }
}

/// The value of a 20-digit chunk, when it is one and fits in the format.
pub open spec fn val20(s: Seq<char>) -> Option<u64> {
    if s.len() == 20 && all_digits(s) && dec_val(s) < enc_limit() {
        Some(dec_val(s) as u64)
    } else {
        None
    }
}

/// Reads a 20-digit chunk back as a number.
fn parse_u64(chunk: &Vec<char>) -> (r: Option<u64>)
    ensures
        r == val20(chunk@),
{
    if chunk.len() != 20 {
        return None;
    }
    let mut acc: u64 = 0;
    let mut i: usize = 0;
    while i < 20
        invariant
            chunk@.len() == 20,
            0 <= i <= 20,
            all_digits(chunk@.take(i as int)),
            acc as nat == dec_val(chunk@.take(i as int)),
        decreases 20 - i,
    {
        let c = chunk[i];
        let d: u64 = if c == '0' {
            0
        } else if c == '1' {
            1
        } else if c == '2' {
            2
        } else if c == '3' {
            3
        } else if c == '4' {
            4
        } else if c == '5' {
            5
        } else if c == '6' {
            6
        } else if c == '7' {
            7
        } else if c == '8' {
            8
        } else if c == '9' {
            9
        } else {
            proof {
                assert(!is_digit(chunk@[i as int]));
                lemma_prefix_val_bounds(chunk@, i as int);
            }
            return None;
        };
        proof {
            assert(is_digit(chunk@[i as int]));
            assert(d as nat == digit_val(chunk@[i as int]));
        }
        if acc > (u64::MAX - d) / 10 {
            proof {
                let t = chunk@.take(i + 1);
                assert(t.drop_last() =~= chunk@.take(i as int));
                assert(t.last() == chunk@[i as int]);
                assert(dec_val(t) == acc as nat * 10 + d as nat);
                assert(acc as nat * 10 + d as nat >= enc_limit()) by (nonlinear_arith)
                    requires
                        (acc as nat) > ((0xffff_ffff_ffff_ffffnat - (d as nat)) / 10),
                        (d as nat) < 10;
                lemma_dec_val_prefix(chunk@, i + 1);
            }
            return None;
        }
        proof {
            assert(acc as nat * 10 + d as nat <= 0xffff_ffff_ffff_ffffnat) by (nonlinear_arith)
                requires
                    (acc as nat) <= ((0xffff_ffff_ffff_ffffnat - (d as nat)) / 10),
                    (d as nat) < 10;
            let t = chunk@.take(i + 1);
            assert(t.drop_last() =~= chunk@.take(i as int));
            assert(t.last() == chunk@[i as int]);
        }
        acc = acc * 10 + d;
        i = i + 1;
    }
    proof {
        assert(chunk@.take(20) =~= chunk@);
    }
    Some(acc)
}

/// A digit string's value only grows as more digits are appended.
proof fn lemma_dec_val_prefix(s: Seq<char>, m: int)
    requires
        0 <= m <= s.len(),
    ensures
        dec_val(s) >= dec_val(s.take(m)),
    decreases s.len() - m,
{
    if m == s.len() {
        assert(s.take(m) =~= s);
    } else {
        lemma_dec_val_prefix(s, m + 1);
        let t = s.take(m + 1);
        assert(t.drop_last() =~= s.take(m));
        assert(dec_val(t) == dec_val(s.take(m)) * 10 + digit_val(t.last()));
        assert(dec_val(s.take(m)) * 10 >= dec_val(s.take(m))) by (nonlinear_arith);
    }
}

/// If some character of a digit-prefixed string is not a digit, the whole
/// string is not all digits.
proof fn lemma_prefix_val_bounds(s: Seq<char>, i: int)
    requires
        0 <= i < s.len(),
        !is_digit(s[i]),
    ensures
        !all_digits(s),
{
}

/// A chunk: the 20-digit length of `x`, then `x` itself.
pub open spec fn enc_chunk(x: Seq<char>) -> Seq<char> {
    dec_digits(x.len(), 20) + x
}

/// A record body: its chunks in order.
pub open spec fn enc_chunks(xs: Seq<Seq<char>>) -> Seq<char>
    decreases xs.len(),
{
    if xs.len() == 0 {
        Seq::empty()
    } else {
        enc_chunk(xs[0]) + enc_chunks(xs.skip(1))
    }
}

/// Parses one chunk at offset `i`: the content and the next offset.
pub open spec fn p_chunk(s: Seq<char>, i: int) -> Option<(Seq<char>, int)> {
    if 0 <= i && i + 20 <= s.len() {
        let d = s.subrange(i, i + 20);
        if all_digits(d) && dec_val(d) < enc_limit() && i + 20 + dec_val(d) <= s.len() {
            Some((s.subrange(i + 20, i + 20 + dec_val(d)), i + 20 + dec_val(d)))
        } else {
            None
        }
    } else {
        None
    }
}

/// Parses chunks from offset `i` to the end of `s`.
pub open spec fn p_chunks(s: Seq<char>, i: int) -> Option<Seq<Seq<char>>>
    decreases s.len() - i when 0 <= i <= s.len()
{
    if i == s.len() {
        Some(Seq::empty())
    } else {
        match p_chunk(s, i) {
            Some(xj) => match p_chunks(s, xj.1) {
                Some(rest) => Some(seq![xj.0] + rest),
                None => None,
            },
            None => None,
        }
    }
}

/// A chunk written at offset `i` parses back to its content.
pub proof fn lemma_chunk_at(s: Seq<char>, i: int, x: Seq<char>)
    requires
        0 <= i,
        x.len() < enc_limit(),
        i + 20 + x.len() <= s.len(),
        s.subrange(i, i + 20 + x.len()) == enc_chunk(x),
    ensures
        p_chunk(s, i) == Some((x, i + 20 + x.len())),
{
    lemma_pow10_20();
    lemma_dec_digits(x.len(), 20);
    let whole = s.subrange(i, i + 20 + x.len());
    let d = s.subrange(i, i + 20);
    assert(d =~= whole.subrange(0, 20));
    assert(whole.subrange(0, 20) =~= dec_digits(x.len(), 20));
    assert(dec_val(d) == x.len());
    assert(s.subrange(i + 20, i + 20 + x.len()) =~= whole.subrange(20, 20 + x.len() as int));
    assert(whole.subrange(20, 20 + x.len() as int) =~= x);
}

/// A written chunk sequence parses back to the chunks, when it runs to the
/// end of the string.
pub proof fn lemma_chunks_complete(s: Seq<char>, i: int, xs: Seq<Seq<char>>)
    requires
        0 <= i <= s.len(),
        forall|k: int| 0 <= k < xs.len() ==> (#[trigger] xs[k]).len() < enc_limit(),
        s.subrange(i, s.len() as int) == enc_chunks(xs),
    ensures
        p_chunks(s, i) == Some(xs),
    decreases xs.len(),
{
    lemma_pow10_20();
    if xs.len() == 0 {
        assert(s.subrange(i, s.len() as int).len() == 0);
    } else {
        let x0 = xs[0];
        lemma_dec_digits(x0.len(), 20);
        let rest = xs.skip(1);
        assert(s.subrange(i, s.len() as int).len() == s.len() - i);
        assert(enc_chunks(xs).len() == 20 + x0.len() + enc_chunks(rest).len());
        let j = i + 20 + x0.len() as int;
        assert(j <= s.len());
        assert(s.subrange(i, j) =~= enc_chunks(xs).subrange(0, 20 + x0.len() as int));
        assert(enc_chunks(xs).subrange(0, 20 + x0.len() as int) =~= enc_chunk(x0));
        lemma_chunk_at(s, i, x0);
        assert(s.subrange(j, s.len() as int) =~= enc_chunks(xs).subrange(
            20 + x0.len() as int,
            enc_chunks(xs).len() as int,
        ));
        assert(enc_chunks(xs).subrange(20 + x0.len() as int, enc_chunks(xs).len() as int)
            =~= enc_chunks(rest));
        lemma_chunks_complete(s, j, rest);
        assert(seq![x0] + rest =~= xs);
    }
}

/// Appending one more chunk extends the encoding on the right.
pub proof fn lemma_enc_chunks_push(xs: Seq<Seq<char>>, x: Seq<char>)
    ensures
        enc_chunks(xs.push(x)) == enc_chunks(xs) + enc_chunk(x),
    decreases xs.len(),
{
    let whole = xs.push(x);
    if xs.len() == 0 {
        assert(whole[0] == x);
        assert(whole.skip(1) =~= Seq::<Seq<char>>::empty());
        assert(enc_chunks(whole.skip(1)) =~= Seq::<char>::empty());
        assert(enc_chunks(whole) == enc_chunk(x) + enc_chunks(whole.skip(1)));
        assert(enc_chunk(x) + Seq::<char>::empty() =~= enc_chunk(x));
        assert(enc_chunks(xs) =~= Seq::<char>::empty());
        assert(Seq::<char>::empty() + enc_chunk(x) =~= enc_chunk(x));
    } else {
        assert(whole.skip(1) =~= xs.skip(1).push(x));
        lemma_enc_chunks_push(xs.skip(1), x);
        assert(whole[0] == xs[0]);
        assert(enc_chunk(xs[0]) + (enc_chunks(xs.skip(1)) + enc_chunk(x)) =~= (enc_chunk(xs[0])
            + enc_chunks(xs.skip(1))) + enc_chunk(x));
    }
}

/// Pushes one chunk holding the characters of `s`.
fn push_chunk(out: &mut Vec<char>, s: &str)
    ensures
        final(out)@ == old(out)@ + enc_chunk(s@),
{
    let cs = to_chars(s);
    let n = cs.len();
    push_digits(n as u64, 20, out);
    let ghost mid = out@;
    let mut k: usize = 0;
    while k < n
        invariant
            n == cs@.len(),
            0 <= k <= n,
            out@ == mid + cs@.take(k as int),
        decreases n - k,
    {
        out.push(cs[k]);
        proof {
            assert(cs@.take(k + 1) =~= cs@.take(k as int).push(cs@[k as int]));
        }
        k = k + 1;
    }
    proof {
        assert(cs@.take(n as int) =~= cs@);
        assert(old(out)@ + dec_digits(n as nat, 20) + s@ =~= old(out)@ + (dec_digits(s@.len(), 20)
            + s@));
    }
}

/// Pushes one chunk holding `n` as 20 digits.
fn push_num_chunk(out: &mut Vec<char>, n: u64)
    ensures
        final(out)@ == old(out)@ + enc_chunk(dec_digits(n as nat, 20)),
{
    proof {
        lemma_pow10_20();
        lemma_dec_digits(n as nat, 20);
    }
    push_digits(20, 20, out);
    push_digits(n, 20, out);
    proof {
        assert(old(out)@ + dec_digits(20, 20) + dec_digits(n as nat, 20) =~= old(out)@
            + (dec_digits(dec_digits(n as nat, 20).len(), 20) + dec_digits(n as nat, 20)));
    }
}

/// The one-character chunk content for the selector flag.
pub open spec fn flag_seq(b: bool) -> Seq<char> {
    if b {
        seq!['1']
    } else {
        seq!['0']
    }
}

/// The views of a sequence of character vectors.
pub open spec fn chunk_views(v: Seq<Vec<char>>) -> Seq<Seq<char>> {
    v.map_values(|x: Vec<char>| x@)
}

/// Parses one chunk at offset `i`, exactly as `p_chunk` says.
fn parse_chunk(cs: &Vec<char>, i: usize) -> (r: Option<(Vec<char>, usize)>)
    requires
        i <= cs@.len(),
    ensures
        match r {
            Some(p) => p_chunk(cs@, i as int) == Some((p.0@, p.1 as int)) && i < p.1 <= cs@.len(),
            None => p_chunk(cs@, i as int) is None,
        },
{
    let total = cs.len();
    if total - i < 20 {
        return None;
    }
    let mut lenchunk: Vec<char> = Vec::new();
    let mut k: usize = 0;
    while k < 20
        invariant
            total == cs@.len(),
            i + 20 <= total,
            0 <= k <= 20,
            lenchunk@ == cs@.subrange(i as int, i + k),
        decreases 20 - k,
    {
        lenchunk.push(cs[i + k]);
        proof {
            assert(cs@.subrange(i as int, i + k + 1) =~= cs@.subrange(i as int, i + k).push(
                cs@[i + k],
            ));
        }
        k = k + 1;
    }
    let n = match parse_u64(&lenchunk) {
        Some(n) => n,
        None => {
            return None;
        },
    };
    let remaining = total - (i + 20);
    if n > remaining as u64 {
        return None;
    }
    let m = n as usize;
    let mut content: Vec<char> = Vec::new();
    let mut k2: usize = 0;
    while k2 < m
        invariant
            total == cs@.len(),
            i + 20 + m <= total,
            0 <= k2 <= m,
            content@ == cs@.subrange(i + 20, i + 20 + k2),
        decreases m - k2,
    {
        content.push(cs[i + 20 + k2]);
        proof {
            assert(cs@.subrange(i + 20, i + 20 + k2 + 1) =~= cs@.subrange(i + 20, i + 20
                + k2).push(cs@[i + 20 + k2]));
        }
        k2 = k2 + 1;
    }
    Some((content, i + 20 + m))
}

/// Parses the whole string as chunks, exactly as `p_chunks` says.
fn parse_all_chunks(cs: &Vec<char>) -> (r: Option<Vec<Vec<char>>>)
    ensures
        match r {
            Some(v) => p_chunks(cs@, 0) == Some(chunk_views(v@)),
            None => p_chunks(cs@, 0) is None,
        },
{
    let mut acc: Vec<Vec<char>> = Vec::new();
    let mut i: usize = 0;
    while i < cs.len()
        invariant
            0 <= i <= cs@.len(),
            p_chunks(cs@, 0) == (match p_chunks(cs@, i as int) {
                Some(rest) => Some(chunk_views(acc@) + rest),
                None => None::<Seq<Seq<char>>>,
            }),
        decreases cs@.len() - i,
    {
        match parse_chunk(cs, i) {
            Some(p) => {
                let (chunk, j) = p;
                proof {
                    let x = chunk@;
                    assert(p_chunks(cs@, i as int) == (match p_chunks(cs@, j as int) {
                        Some(rest) => Some(seq![x] + rest),
                        None => None::<Seq<Seq<char>>>,
                    }));
                    assert(chunk_views(acc@.push(chunk)) =~= chunk_views(acc@).push(x));
                    if p_chunks(cs@, j as int) is Some {
                        let rest = p_chunks(cs@, j as int)->Some_0;
                        assert(chunk_views(acc@) + (seq![x] + rest) =~= chunk_views(acc@).push(x)
                            + rest);
                    }
                }
                acc.push(chunk);
                i = j;
            },
            None => {
                return None;
            },
        }
    }
    proof {
        assert(p_chunks(cs@, i as int) == Some(Seq::<Seq<char>>::empty()));
        assert(chunk_views(acc@) + Seq::<Seq<char>>::empty() =~= chunk_views(acc@));
    }
    Some(acc)
}

/// Pushes the selector-flag chunk.
fn push_flag_chunk(out: &mut Vec<char>, b: bool)
    ensures
        final(out)@ == old(out)@ + enc_chunk(flag_seq(b)),
{
    push_digits(1, 20, out);
    if b {
        out.push('1');
    } else {
        out.push('0');
    }
    proof {
        assert(flag_seq(b).len() == 1);
        assert(old(out)@ + dec_digits(1, 20) + flag_seq(b) =~= old(out)@ + (dec_digits(
            flag_seq(b).len(),
            20,
        ) + flag_seq(b)));
        assert((old(out)@ + dec_digits(1, 20)).push(if b {
            '1'
        } else {
            '0'
        }) =~= old(out)@ + dec_digits(1, 20) + flag_seq(b));
    }
}

/// The chunk list of an annotation: the four text fields, the two
/// timestamps, the tag count and tags, the quote count and quotes, and the
/// selector flag.
pub open spec fn fields_of(av: AnnotationView) -> Seq<Seq<char>> {
    seq![
        av.id,
        av.group,
        av.uri,
        av.text,
        dec_digits(av.created as nat, 20),
        dec_digits(av.updated as nat, 20),
        dec_digits(av.tags.len(), 20),
    ] + av.tags + seq![dec_digits(av.quotes.len(), 20)] + av.quotes + seq![
        flag_seq(av.has_selectors),
    ]
}

/// The stored text of an annotation.
pub open spec fn enc_ann(av: AnnotationView) -> Seq<char> {
    enc_chunks(fields_of(av))
}

/// Reassembles an annotation from its chunk list, when the list is
/// well-formed.
pub open spec fn ann_of_fields(xs: Seq<Seq<char>>) -> Option<AnnotationView> {
    if xs.len() >= 7 && val20(xs[4]) is Some && val20(xs[5]) is Some && val20(xs[6]) is Some {
        let ntags = val20(xs[6])->Some_0 as int;
        if 8 + ntags <= xs.len() && val20(xs[7 + ntags]) is Some {
            let nq = val20(xs[7 + ntags])->Some_0 as int;
            if xs.len() == 9 + ntags + nq && (xs[xs.len() - 1] == flag_seq(true) || xs[xs.len()
                - 1] == flag_seq(false)) {
                Some(
                    AnnotationView {
                        id: xs[0],
                        group: xs[1],
                        uri: xs[2],
                        text: xs[3],
                        tags: xs.subrange(7, 7 + ntags),
                        created: val20(xs[4])->Some_0,
                        updated: val20(xs[5])->Some_0,
                        quotes: xs.subrange(8 + ntags, 8 + ntags + nq),
                        has_selectors: xs[xs.len() - 1] == flag_seq(true),
                    },
                )
            } else {
                None
            }
        } else {
            None
        }
    } else {
        None
    }
}

/// What a stored record means: the decoded annotation, if the text is a
/// well-formed record.
pub open spec fn dec_ann(s: Seq<char>) -> Option<AnnotationView> {
    match p_chunks(s, 0) {
        Some(xs) => ann_of_fields(xs),
        None => None,
    }
}

/// Every field small enough for the format. Any annotation held in memory
/// is bounded, since its fields fit in vectors.
pub open spec fn bounded_ann(av: AnnotationView) -> bool {
    &&& av.id.len() < enc_limit()
    &&& av.group.len() < enc_limit()
    &&& av.uri.len() < enc_limit()
    &&& av.text.len() < enc_limit()
    &&& av.tags.len() < enc_limit()
    &&& forall|k: int| 0 <= k < av.tags.len() ==> (#[trigger] av.tags[k]).len() < enc_limit()
    &&& av.quotes.len() < enc_limit()
    &&& forall|k: int| 0 <= k < av.quotes.len() ==> (#[trigger] av.quotes[k]).len() < enc_limit()
}

/// Law (record round trip): decoding an encoded annotation gives the
/// annotation back.
pub proof fn lemma_ann_roundtrip(av: AnnotationView)
    requires
        bounded_ann(av),
    ensures
        dec_ann(enc_ann(av)) == Some(av),
{
    lemma_pow10_20();
    let xs = fields_of(av);
    let s = enc_ann(av);
    let n = av.tags.len() as int;
    let q = av.quotes.len() as int;
    lemma_dec_digits(av.created as nat, 20);
    lemma_dec_digits(av.updated as nat, 20);
    lemma_dec_digits(av.tags.len(), 20);
    lemma_dec_digits(av.quotes.len(), 20);
    assert(xs.len() == 9 + n + q);
    assert(xs[0] == av.id);
    assert(xs[1] == av.group);
    assert(xs[2] == av.uri);
    assert(xs[3] == av.text);
    assert(xs[4] == dec_digits(av.created as nat, 20));
    assert(xs[5] == dec_digits(av.updated as nat, 20));
    assert(xs[6] == dec_digits(av.tags.len(), 20));
    assert(forall|k: int| 0 <= k < n ==> xs[7 + k] == av.tags[k]);
    assert(xs[7 + n] == dec_digits(av.quotes.len(), 20));
    assert(forall|k: int| 0 <= k < q ==> xs[8 + n + k] == av.quotes[k]);
    assert(xs[8 + n + q] == flag_seq(av.has_selectors));
    assert forall|k: int| 0 <= k < xs.len() implies (#[trigger] xs[k]).len() < enc_limit() by {
        if 7 <= k < 7 + n {
            assert(xs[k] == av.tags[k - 7]);
        } else if 8 + n <= k < 8 + n + q {
            assert(xs[k] == av.quotes[k - 8 - n]);
        }
    }
    assert(s.subrange(0, s.len() as int) =~= s);
    lemma_chunks_complete(s, 0, xs);
    assert(val20(xs[4]) == Some(av.created));
    assert(val20(xs[5]) == Some(av.updated));
    assert(val20(xs[6]) is Some && val20(xs[6])->Some_0 as int == n);
    assert(val20(xs[7 + n]) is Some && val20(xs[7 + n])->Some_0 as int == q);
    assert(xs.subrange(7, 7 + n) =~= av.tags);
    assert(xs.subrange(8 + n, 8 + n + q) =~= av.quotes);
    if flag_seq(true) == flag_seq(false) {
        assert(flag_seq(true)[0] == flag_seq(false)[0]);
    }
    assert(ann_of_fields(xs) is Some);
    assert(ann_of_fields(xs)->Some_0 =~= av);
}

/// Two chunk lists one after the other encode as the concatenation.
pub proof fn lemma_enc_chunks_concat(a: Seq<Seq<char>>, b: Seq<Seq<char>>)
    ensures
        enc_chunks(a + b) == enc_chunks(a) + enc_chunks(b),
    decreases a.len(),
{
    if a.len() == 0 {
        assert(a + b =~= b);
        assert(Seq::<char>::empty() + enc_chunks(b) =~= enc_chunks(b));
    } else {
        assert((a + b)[0] == a[0]);
        assert((a + b).skip(1) =~= a.skip(1) + b);
        lemma_enc_chunks_concat(a.skip(1), b);
        assert(enc_chunks(a + b) == enc_chunk(a[0]) + (enc_chunks(a.skip(1)) + enc_chunks(b)));
        assert(enc_chunk(a[0]) + (enc_chunks(a.skip(1)) + enc_chunks(b)) =~= (enc_chunk(a[0])
            + enc_chunks(a.skip(1))) + enc_chunks(b));
    }
}

/// Encodes an annotation as the text stored in the record store.
pub fn encode_annotation(a: &Annotation) -> (r: String)
    ensures
        r@ == enc_ann(a@),
{
    let mut out: Vec<char> = Vec::new();
    let ghost mut fs: Seq<Seq<char>> = Seq::empty();
    proof {
        assert(out@ =~= enc_chunks(fs));
    }
    push_chunk(&mut out, a.id.as_str());
    proof {
        lemma_enc_chunks_push(fs, a.id@);
        fs = fs.push(a.id@);
    }
    push_chunk(&mut out, a.group.as_str());
    proof {
        lemma_enc_chunks_push(fs, a.group@);
        fs = fs.push(a.group@);
    }
    push_chunk(&mut out, a.uri.as_str());
    proof {
        lemma_enc_chunks_push(fs, a.uri@);
        fs = fs.push(a.uri@);
    }
    push_chunk(&mut out, a.text.as_str());
    proof {
        lemma_enc_chunks_push(fs, a.text@);
        fs = fs.push(a.text@);
    }
    push_num_chunk(&mut out, a.created);
    proof {
        lemma_enc_chunks_push(fs, dec_digits(a.created as nat, 20));
        fs = fs.push(dec_digits(a.created as nat, 20));
    }
    push_num_chunk(&mut out, a.updated);
    proof {
        lemma_enc_chunks_push(fs, dec_digits(a.updated as nat, 20));
        fs = fs.push(dec_digits(a.updated as nat, 20));
    }
    let ntags = a.tags.len();
    push_num_chunk(&mut out, ntags as u64);
    proof {
        lemma_enc_chunks_push(fs, dec_digits(ntags as nat, 20));
        fs = fs.push(dec_digits(ntags as nat, 20));
    }
    let ghost fs7 = fs;
    let mut k: usize = 0;
    while k < ntags
        invariant
            ntags == a.tags@.len(),
            0 <= k <= ntags,
            out@ == enc_chunks(fs),
            fs == fs7 + views_of(a.tags@).take(k as int),
        decreases ntags - k,
    {
        push_chunk(&mut out, a.tags[k].as_str());
        proof {
            lemma_enc_chunks_push(fs, a.tags@[k as int]@);
            fs = fs.push(a.tags@[k as int]@);
            assert(views_of(a.tags@).take(k + 1) =~= views_of(a.tags@).take(k as int).push(
                a.tags@[k as int]@,
            ));
            assert(fs7 + views_of(a.tags@).take(k + 1) =~= (fs7 + views_of(a.tags@).take(
                k as int,
            )).push(a.tags@[k as int]@));
        }
        k = k + 1;
    }
    proof {
        assert(views_of(a.tags@).take(ntags as int) =~= views_of(a.tags@));
    }
    let nq = a.quotes.len();
    push_num_chunk(&mut out, nq as u64);
    proof {
        lemma_enc_chunks_push(fs, dec_digits(nq as nat, 20));
        fs = fs.push(dec_digits(nq as nat, 20));
    }
    let ghost fsq = fs;
    let mut k2: usize = 0;
    while k2 < nq
        invariant
            nq == a.quotes@.len(),
            0 <= k2 <= nq,
            out@ == enc_chunks(fs),
            fs == fsq + views_of(a.quotes@).take(k2 as int),
        decreases nq - k2,
    {
        push_chunk(&mut out, a.quotes[k2].as_str());
        proof {
            lemma_enc_chunks_push(fs, a.quotes@[k2 as int]@);
            fs = fs.push(a.quotes@[k2 as int]@);
            assert(views_of(a.quotes@).take(k2 + 1) =~= views_of(a.quotes@).take(k2 as int).push(
                a.quotes@[k2 as int]@,
            ));
            assert(fsq + views_of(a.quotes@).take(k2 + 1) =~= (fsq + views_of(a.quotes@).take(
                k2 as int,
            )).push(a.quotes@[k2 as int]@));
        }
        k2 = k2 + 1;
    }
    proof {
        assert(views_of(a.quotes@).take(nq as int) =~= views_of(a.quotes@));
    }
    push_flag_chunk(&mut out, a.has_selectors);
    proof {
        lemma_enc_chunks_push(fs, flag_seq(a.has_selectors));
        fs = fs.push(flag_seq(a.has_selectors));
        assert(fs =~= fields_of(a@));
    }
    from_chars(&out)
}

/// Decodes a stored record, exactly as `dec_ann` says.
pub fn decode_annotation(s: &String) -> (r: Option<Annotation>)
    ensures
        r is Some <==> dec_ann(s@) is Some,
        r matches Some(a) ==> Some(a@) == dec_ann(s@),
{
    let cs = to_chars(s.as_str());
    let chunks = match parse_all_chunks(&cs) {
        Some(c) => c,
        None => {
            return None;
        },
    };
    let ghost xs = chunk_views(chunks@);
    let len = chunks.len();
    if len < 8 {
        proof {
            if ann_of_fields(xs) is Some {
                assert(8 + val20(xs[6])->Some_0 as int <= xs.len());
            }
        }
        return None;
    }
    let created = match parse_u64(&chunks[4]) {
        Some(v) => v,
        None => {
            return None;
        },
    };
    let updated = match parse_u64(&chunks[5]) {
        Some(v) => v,
        None => {
            return None;
        },
    };
    let ntags64 = match parse_u64(&chunks[6]) {
        Some(v) => v,
        None => {
            return None;
        },
    };
    if ntags64 > (len - 8) as u64 {
        return None;
    }
    let ntags = ntags64 as usize;
    let nq64 = match parse_u64(&chunks[7 + ntags]) {
        Some(v) => v,
        None => {
            return None;
        },
    };
    if len - 8 - ntags == 0 {
        proof {
            if ann_of_fields(xs) is Some {
                assert(xs.len() == 9 + ntags + val20(xs[7 + ntags as int])->Some_0 as int);
            }
        }
        return None;
    }
    if nq64 != (len - 9 - ntags) as u64 {
        return None;
    }
    let nq = nq64 as usize;
    let flag = &chunks[len - 1];
    let has_selectors: bool;
    if flag.len() == 1 {
        let fc = flag[0];
        if fc == '1' {
            has_selectors = true;
            proof {
                assert(xs[xs.len() - 1] =~= flag_seq(true));
            }
        } else if fc == '0' {
            has_selectors = false;
            proof {
                assert(xs[xs.len() - 1] =~= flag_seq(false));
                if xs[xs.len() - 1] == flag_seq(true) {
                    assert(flag_seq(false)[0] == flag_seq(true)[0]);
                }
            }
        } else {
            proof {
                if xs[xs.len() - 1] == flag_seq(true) {
                    assert(xs[xs.len() - 1][0] == '1');
                }
                if xs[xs.len() - 1] == flag_seq(false) {
                    assert(xs[xs.len() - 1][0] == '0');
                }
            }
            return None;
        }
    } else {
        proof {
            assert(flag_seq(true).len() == 1 && flag_seq(false).len() == 1);
        }
        return None;
    }
    let id = from_chars(&chunks[0]);
    let group = from_chars(&chunks[1]);
    let uri = from_chars(&chunks[2]);
    let text = from_chars(&chunks[3]);
    let mut tags: Vec<String> = Vec::new();
    let mut k: usize = 0;
    while k < ntags
        invariant
            7 + ntags < len,
            len == chunks@.len(),
            xs == chunk_views(chunks@),
            0 <= k <= ntags,
            views_of(tags@) == xs.subrange(7, 7 + k as int),
        decreases ntags - k,
    {
        tags.push(from_chars(&chunks[7 + k]));
        proof {
            assert(xs.subrange(7, 7 + k + 1) =~= xs.subrange(7, 7 + k as int).push(
                xs[7 + k as int],
            ));
            assert(views_of(tags@) =~= xs.subrange(7, 7 + k as int).push(xs[7 + k as int]));
        }
        k = k + 1;
    }
    let mut quotes: Vec<String> = Vec::new();
    let mut k2: usize = 0;
    while k2 < nq
        invariant
            8 + ntags + nq < len,
            len == chunks@.len(),
            xs == chunk_views(chunks@),
            0 <= k2 <= nq,
            views_of(quotes@) == xs.subrange(8 + ntags as int, 8 + ntags as int + k2 as int),
        decreases nq - k2,
    {
        quotes.push(from_chars(&chunks[8 + ntags + k2]));
        proof {
            assert(xs.subrange(8 + ntags as int, 8 + ntags as int + k2 + 1) =~= xs.subrange(
                8 + ntags as int,
                8 + ntags as int + k2 as int,
            ).push(xs[8 + ntags as int + k2 as int]));
            assert(views_of(quotes@) =~= xs.subrange(
                8 + ntags as int,
                8 + ntags as int + k2 as int,
            ).push(xs[8 + ntags as int + k2 as int]));
        }
        k2 = k2 + 1;
    }
    let a = Annotation { id, group, uri, text, tags, created, updated, quotes, has_selectors };
    proof {
        assert(ann_of_fields(xs) is Some);
        assert(a@ =~= ann_of_fields(xs)->Some_0);
    }
    Some(a)
}

/// `n` as its 20-digit decimal text.
pub fn u64_to_digits(n: u64) -> (r: String)
    ensures
        r@ == dec_digits(n as nat, 20),
{
    let mut out: Vec<char> = Vec::new();
    push_digits(n, 20, &mut out);
    from_chars(&out)
}

/// Reads a 20-digit decimal text back, exactly as `val20` says.
pub fn parse_u64_str(s: &String) -> (r: Option<u64>)
    ensures
        r == val20(s@),
{
    let cs = to_chars(s.as_str());
    parse_u64(&cs)
}

/// A whole number round-trips through its 20-digit text.
pub proof fn lemma_digits_roundtrip(n: u64)
    ensures
        val20(dec_digits(n as nat, 20)) == Some(n),
{
    lemma_pow10_20();
    lemma_dec_digits(n as nat, 20);
}

} // verus!
