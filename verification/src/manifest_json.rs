use vstd::prelude::*;
use crate::errors::Error;
use crate::manifest::{Algo, MetaData};
use crate::paths::bytes_eq;

verus! {

// JSON punctuation and escape bytes by their ASCII codes.
pub const LBRACE: u8 = 123;
pub const RBRACE: u8 = 125;
pub const LBRACK: u8 = 91;
pub const RBRACK: u8 = 93;
pub const COMMA: u8 = 44;
pub const QUOTE: u8 = 34;
pub const BACKSLASH: u8 = 92;
pub const DIGIT_ZERO: u8 = 48;
pub const LOWER_U: u8 = 117;

/// The hex digit (lower case) for a value below sixteen.
pub open spec fn hex_digit(n: u8) -> u8 {
    if n < 10 {
        (48 + n) as u8
    } else {
        (87 + n) as u8
    }
}

/// How one byte of the version string is written inside a JSON string:
/// quote and backslash get a backslash escape, control bytes a `\u00xx`
/// escape, and everything else stands as itself.
pub open spec fn esc_byte(b: u8) -> Seq<u8> {
    if b == QUOTE {
        seq![BACKSLASH, QUOTE]
    } else if b == BACKSLASH {
        seq![BACKSLASH, BACKSLASH]
    } else if b < 32 {
        seq![BACKSLASH, LOWER_U, DIGIT_ZERO, DIGIT_ZERO, hex_digit(b / 16), hex_digit(b % 16)]
    } else {
        seq![b]
    }
}

/// A byte string written inside a JSON string, byte by byte.
pub open spec fn escape_bytes(s: Seq<u8>) -> Seq<u8>
    decreases s.len(),
{
    if s.len() == 0 {
        Seq::empty()
    } else {
        escape_bytes(s.drop_last()) + esc_byte(s.last())
    }
}

/// The decimal digits of a byte value, without leading zeros.
pub open spec fn dec_digits(n: u8) -> Seq<u8> {
    if n < 10 {
        seq![(48 + n) as u8]
    } else if n < 100 {
        seq![(48 + n / 10) as u8, (48 + n % 10) as u8]
    } else {
        seq![(48 + n / 100) as u8, (48 + (n / 10) % 10) as u8, (48 + n % 10) as u8]
    }
}

/// The comma-separated decimal items of a byte-array value.
pub open spec fn bytes_items(s: Seq<u8>) -> Seq<u8>
    decreases s.len(),
{
    if s.len() == 0 {
        Seq::empty()
    } else if s.len() == 1 {
        dec_digits(s[0])
    } else {
        bytes_items(s.drop_last()) + seq![COMMA] + dec_digits(s.last())
    }
}

/// A path as JSON: an array of byte values, which survives names that are
/// not UTF-8.
pub open spec fn bytes_array(s: Seq<u8>) -> Seq<u8> {
    seq![LBRACK] + bytes_items(s) + seq![RBRACK]
}

/// The JSON name of an algorithm tag, quotes included.
pub open spec fn algo_name(a: Algo) -> Seq<u8> {
    match a {
        // "XDelta3"
        Algo::XDelta3 => seq![34u8, 88, 68, 101, 108, 116, 97, 51, 34],
        // "AsIs"
        Algo::AsIs => seq![34u8, 65, 115, 73, 115, 34],
    }
}

/// One change entry as JSON: a two-element array of the algorithm name and
/// the path byte array.
pub open spec fn change_entry(c: (Algo, Seq<u8>)) -> Seq<u8> {
    seq![LBRACK] + algo_name(c.0) + seq![COMMA] + bytes_array(c.1) + seq![RBRACK]
}

/// The comma-separated items of the `keep_files` list.
pub open spec fn keep_items(ps: Seq<Seq<u8>>) -> Seq<u8>
    decreases ps.len(),
{
    if ps.len() == 0 {
        Seq::empty()
    } else if ps.len() == 1 {
        bytes_array(ps[0])
    } else {
        keep_items(ps.drop_last()) + seq![COMMA] + bytes_array(ps.last())
    }
}

/// The comma-separated items of the `changes` list.
pub open spec fn changes_items(cs: Seq<(Algo, Seq<u8>)>) -> Seq<u8>
    decreases cs.len(),
{
    if cs.len() == 0 {
        Seq::empty()
    } else if cs.len() == 1 {
        change_entry(cs[0])
    } else {
        changes_items(cs.drop_last()) + seq![COMMA] + change_entry(cs.last())
    }
}

/// `{"version":"`
pub open spec fn lit_head() -> Seq<u8> {
    seq![123u8, 34, 118, 101, 114, 115, 105, 111, 110, 34, 58, 34]
}

/// `","keep_files":[`
pub open spec fn lit_keep() -> Seq<u8> {
    seq![34u8, 44, 34, 107, 101, 101, 112, 95, 102, 105, 108, 101, 115, 34, 58, 91]
}

/// `],"changes":[`
pub open spec fn lit_changes() -> Seq<u8> {
    seq![93u8, 44, 34, 99, 104, 97, 110, 103, 101, 115, 34, 58, 91]
}

/// `]}`
pub open spec fn lit_tail() -> Seq<u8> {
    seq![93u8, 125]
}

/// The canonical JSON document for a manifest: one object holding the
/// version string, the kept paths as byte arrays, and the change entries
/// as `[name, byte array]` pairs, with no whitespace.
pub open spec fn spec_encode_manifest(
    version: Seq<u8>,
    keeps: Seq<Seq<u8>>,
    changes: Seq<(Algo, Seq<u8>)>,
) -> Seq<u8> {
    lit_head() + escape_bytes(version) + lit_keep() + keep_items(keeps) + lit_changes()
        + changes_items(changes) + lit_tail()
}

fn push_version_escaped(out: &mut Vec<u8>, version: &Vec<u8>)
    ensures
        final(out)@ == old(out)@ + escape_bytes(version@),
{
    let ghost base = out@;
    let mut j: usize = 0;
    proof {
        assert(version@.take(0) =~= Seq::<u8>::empty());
        assert(out@ =~= base + escape_bytes(version@.take(0)));
    }
    while j < version.len()
        invariant
            j <= version@.len(),
            out@ == base + escape_bytes(version@.take(j as int)),
        decreases version@.len() - j,
    {
        let b = version[j];
        if b == QUOTE {
            out.push(BACKSLASH);
            out.push(QUOTE);
        } else if b == BACKSLASH {
            out.push(BACKSLASH);
            out.push(BACKSLASH);
        } else if b < 32 {
            out.push(BACKSLASH);
            out.push(LOWER_U);
            out.push(DIGIT_ZERO);
            out.push(DIGIT_ZERO);
            let hi = b / 16;
            let lo = b % 16;
            out.push(if hi < 10 { 48 + hi } else { 87 + hi });
            out.push(if lo < 10 { 48 + lo } else { 87 + lo });
        } else {
            out.push(b);
        }
        proof {
            assert(version@.take(j + 1).drop_last() =~= version@.take(j as int));
            assert(version@.take(j + 1).last() == version@[j as int]);
            assert(out@ =~= base + escape_bytes(version@.take(j + 1)));
        }
        j = j + 1;
    }
    proof {
        assert(version@.take(version@.len() as int) =~= version@);
    }
}

fn push_dec(out: &mut Vec<u8>, n: u8)
    ensures
        final(out)@ == old(out)@ + dec_digits(n),
{
    if n < 10 {
        out.push(48 + n);
        proof {
            assert(out@ =~= old(out)@ + dec_digits(n));
        }
    } else if n < 100 {
        out.push(48 + n / 10);
        out.push(48 + n % 10);
        proof {
            assert(out@ =~= old(out)@ + dec_digits(n));
        }
    } else {
        out.push(48 + n / 100);
        out.push(48 + (n / 10) % 10);
        out.push(48 + n % 10);
        proof {
            assert(out@ =~= old(out)@ + dec_digits(n));
        }
    }
}

fn push_bytes_array(out: &mut Vec<u8>, s: &Vec<u8>)
    ensures
        final(out)@ == old(out)@ + bytes_array(s@),
{
    out.push(LBRACK);
    let ghost base = out@;
    let mut j: usize = 0;
    proof {
        assert(s@.take(0) =~= Seq::<u8>::empty());
        assert(out@ =~= base + bytes_items(s@.take(0)));
    }
    while j < s.len()
        invariant
            j <= s@.len(),
            out@ == base + bytes_items(s@.take(j as int)),
        decreases s@.len() - j,
    {
        if j > 0 {
            out.push(COMMA);
        }
        push_dec(out, s[j]);
        proof {
            assert(s@.take(j + 1).drop_last() =~= s@.take(j as int));
            assert(s@.take(j + 1).last() == s@[j as int]);
            if j == 0 {
                assert(s@.take(1).len() == 1);
                assert(s@.take(1)[0] == s@[0]);
            }
            assert(out@ =~= base + bytes_items(s@.take(j + 1)));
        }
        j = j + 1;
    }
    out.push(RBRACK);
    proof {
        assert(s@.take(s@.len() as int) =~= s@);
        assert(out@ =~= old(out)@ + bytes_array(s@));
    }
}

fn push_algo(out: &mut Vec<u8>, a: Algo)
    ensures
        final(out)@ == old(out)@ + algo_name(a),
{
    match a {
        Algo::XDelta3 => {
            out.push(34);
            out.push(88);
            out.push(68);
            out.push(101);
            out.push(108);
            out.push(116);
            out.push(97);
            out.push(51);
            out.push(34);
            proof {
                assert(out@ =~= old(out)@ + algo_name(a));
            }
        },
        Algo::AsIs => {
            out.push(34);
            out.push(65);
            out.push(115);
            out.push(73);
            out.push(115);
            out.push(34);
            proof {
                assert(out@ =~= old(out)@ + algo_name(a));
            }
        },
    }
}

fn push_change(out: &mut Vec<u8>, algo: Algo, path: &Vec<u8>)
    ensures
        final(out)@ == old(out)@ + change_entry((algo, path@)),
{
    out.push(LBRACK);
    proof {
        assert(out@ =~= old(out)@ + seq![LBRACK]);
    }
    let ghost s1 = out@;
    push_algo(out, algo);
    out.push(COMMA);
    proof {
        assert(out@ =~= s1 + algo_name(algo) + seq![COMMA]);
    }
    let ghost s2 = out@;
    push_bytes_array(out, path);
    out.push(RBRACK);
    proof {
        assert(out@ =~= s2 + bytes_array(path@) + seq![RBRACK]);
        assert(out@ =~= old(out)@ + (seq![LBRACK] + algo_name(algo) + seq![COMMA] + bytes_array(
            path@,
        ) + seq![RBRACK]));
    }
}

/// Writes the canonical JSON document for a manifest. This is the byte
/// string stored as the sidecar file at the delta-tree root.
#[verifier::rlimit(100)]
pub fn encode_manifest(md: &MetaData) -> (r: Vec<u8>)
    ensures
        r@ == spec_encode_manifest(md.version@, md.keep_view(), md.changes_view()),
{
    let mut out: Vec<u8> = Vec::new();
    out.push(LBRACE);
    out.push(34);
    out.push(118);
    out.push(101);
    out.push(114);
    out.push(115);
    out.push(105);
    out.push(111);
    out.push(110);
    out.push(34);
    out.push(58);
    out.push(34);
    proof {
        assert(out@ =~= lit_head());
    }
    push_version_escaped(&mut out, &md.version);
    out.push(34);
    out.push(44);
    out.push(34);
    out.push(107);
    out.push(101);
    out.push(101);
    out.push(112);
    out.push(95);
    out.push(102);
    out.push(105);
    out.push(108);
    out.push(101);
    out.push(115);
    out.push(34);
    out.push(58);
    out.push(91);
    proof {
        assert(out@ =~= lit_head() + escape_bytes(md.version@) + lit_keep());
    }
    let ghost base1 = out@;
    let ghost kv = md.keep_view();
    let mut j: usize = 0;
    proof {
        assert(kv.take(0) =~= Seq::<Seq<u8>>::empty());
        assert(out@ =~= base1 + keep_items(kv.take(0)));
    }
    while j < md.keep_files.len()
        invariant
            j <= md.keep_files@.len(),
            kv == md.keep_view(),
            base1 == lit_head() + escape_bytes(md.version@) + lit_keep(),
            out@ == base1 + keep_items(kv.take(j as int)),
        decreases md.keep_files@.len() - j,
    {
        if j > 0 {
            out.push(COMMA);
        }
        push_bytes_array(&mut out, &md.keep_files[j]);
        proof {
            assert(kv.take(j + 1).drop_last() =~= kv.take(j as int));
            assert(kv.take(j + 1).last() == kv[j as int]);
            if j == 0 {
                assert(kv.take(1).len() == 1);
                assert(kv.take(1)[0] == kv[0]);
            }
            assert(out@ =~= base1 + keep_items(kv.take(j + 1)));
        }
        j = j + 1;
    }
    proof {
        assert(kv.take(md.keep_files@.len() as int) =~= kv);
    }
    out.push(93);
    out.push(44);
    out.push(34);
    out.push(99);
    out.push(104);
    out.push(97);
    out.push(110);
    out.push(103);
    out.push(101);
    out.push(115);
    out.push(34);
    out.push(58);
    out.push(91);
    proof {
        assert(out@ =~= base1 + keep_items(kv) + lit_changes());
    }
    let ghost base2 = out@;
    let ghost cv = md.changes_view();
    let mut j2: usize = 0;
    proof {
        assert(cv.take(0) =~= Seq::<(Algo, Seq<u8>)>::empty());
        assert(out@ =~= base2 + changes_items(cv.take(0)));
    }
    while j2 < md.changes.len()
        invariant
            j2 <= md.changes@.len(),
            cv == md.changes_view(),
            base2 == lit_head() + escape_bytes(md.version@) + lit_keep() + keep_items(
                md.keep_view(),
            ) + lit_changes(),
            out@ == base2 + changes_items(cv.take(j2 as int)),
        decreases md.changes@.len() - j2,
    {
        if j2 > 0 {
            out.push(COMMA);
        }
        push_change(&mut out, md.changes[j2].0, &md.changes[j2].1);
        proof {
            assert(cv.take(j2 + 1).drop_last() =~= cv.take(j2 as int));
            assert(cv.take(j2 + 1).last() == cv[j2 as int]);
            if j2 == 0 {
                assert(cv.take(1).len() == 1);
                assert(cv.take(1)[0] == cv[0]);
            }
            assert(cv[j2 as int] == (md.changes@[j2 as int].0, md.changes@[j2 as int].1@));
            assert(out@ =~= base2 + changes_items(cv.take(j2 + 1)));
        }
        j2 = j2 + 1;
    }
    proof {
        assert(cv.take(md.changes@.len() as int) =~= cv);
    }
    out.push(RBRACK);
    out.push(RBRACE);
    proof {
        assert(out@ =~= spec_encode_manifest(md.version@, md.keep_view(), md.changes_view()));
    }
    out
}


fn lit_head_vec() -> (r: Vec<u8>)
    ensures
        r@ == lit_head(),
{
    let r = vec![123u8, 34, 118, 101, 114, 115, 105, 111, 110, 34, 58, 34];
    proof {
        assert(r@ =~= lit_head());
    }
    r
}

fn lit_keep_vec() -> (r: Vec<u8>)
    ensures
        r@ == lit_keep(),
{
    let r = vec![34u8, 44, 34, 107, 101, 101, 112, 95, 102, 105, 108, 101, 115, 34, 58, 91];
    proof {
        assert(r@ =~= lit_keep());
    }
    r
}

fn lit_changes_vec() -> (r: Vec<u8>)
    ensures
        r@ == lit_changes(),
{
    let r = vec![93u8, 44, 34, 99, 104, 97, 110, 103, 101, 115, 34, 58, 91];
    proof {
        assert(r@ =~= lit_changes());
    }
    r
}

fn lit_tail_vec() -> (r: Vec<u8>)
    ensures
        r@ == lit_tail(),
{
    let r = vec![93u8, 125];
    proof {
        assert(r@ =~= lit_tail());
    }
    r
}

fn lit_xdelta_vec() -> (r: Vec<u8>)
    ensures
        r@ == algo_name(Algo::XDelta3),
{
    let r = vec![34u8, 88, 68, 101, 108, 116, 97, 51, 34];
    proof {
        assert(r@ =~= algo_name(Algo::XDelta3));
    }
    r
}

fn lit_asis_vec() -> (r: Vec<u8>)
    ensures
        r@ == algo_name(Algo::AsIs),
{
    let r = vec![34u8, 65, 115, 73, 115, 34];
    proof {
        assert(r@ =~= algo_name(Algo::AsIs));
    }
    r
}

/// A decimal digit byte.
pub open spec fn is_digit(b: u8) -> bool {
    48 <= b && b <= 57
}

/// A lower-case hex digit byte.
pub open spec fn is_hex_lower(b: u8) -> bool {
    (48 <= b && b <= 57) || (97 <= b && b <= 102)
}

/// The value of a lower-case hex digit byte.
pub open spec fn hex_value(b: u8) -> u8 {
    if b <= 57 {
        (b - 48) as u8
    } else {
        (b - 87) as u8
    }
}

/// Reads an escaped JSON string up to its closing quote, which is left in
/// place: the decoded bytes and the rest of the input from the quote on.
/// This is the meaning of the version field's bytes.
pub open spec fn spec_unescape(s: Seq<u8>) -> Option<(Seq<u8>, Seq<u8>)>
    decreases s.len(),
{
    if s.len() == 0 {
        None
    } else if s[0] == QUOTE {
        Some((Seq::empty(), s))
    } else if s[0] == BACKSLASH {
        if s.len() >= 2 && (s[1] == QUOTE || s[1] == BACKSLASH) {
            match spec_unescape(s.skip(2)) {
                None => None,
                Some(pr) => Some((seq![s[1]] + pr.0, pr.1)),
            }
        } else if s.len() >= 6 && s[1] == LOWER_U && s[2] == DIGIT_ZERO && s[3] == DIGIT_ZERO
            && is_hex_lower(s[4]) && is_hex_lower(s[5]) {
            match spec_unescape(s.skip(6)) {
                None => None,
                Some(pr) => Some((seq![(hex_value(s[4]) * 16 + hex_value(s[5])) as u8] + pr.0, pr.1)),
            }
        } else {
            None
        }
    } else {
        match spec_unescape(s.skip(1)) {
            None => None,
            Some(pr) => Some((seq![s[0]] + pr.0, pr.1)),
        }
    }
}

/// Reads one decimal byte value: a digit run as the greedy reader takes it
/// (a leading zero stands alone), refused over 255.
pub open spec fn spec_parse_byte(s: Seq<u8>) -> Option<(u8, Seq<u8>)> {
    if s.len() == 0 || !is_digit(s[0]) {
        None
    } else if s[0] == DIGIT_ZERO {
        Some((0, s.skip(1)))
    } else {
        let v1 = s[0] - 48;
        if s.len() >= 2 && is_digit(s[1]) {
            let v2 = v1 * 10 + (s[1] - 48);
            if s.len() >= 3 && is_digit(s[2]) {
                let v3 = v2 * 10 + (s[2] - 48);
                if v3 <= 255 {
                    Some((v3 as u8, s.skip(3)))
                } else {
                    None
                }
            } else {
                Some((v2 as u8, s.skip(2)))
            }
        } else {
            Some((v1 as u8, s.skip(1)))
        }
    }
}

proof fn lemma_spec_parse_byte_consumes(s: Seq<u8>)
    ensures
        spec_parse_byte(s) matches Some(pr) ==> pr.1.len() < s.len(),
{
}

/// Reads one or more comma-separated byte values and the closing bracket.
pub open spec fn spec_parse_items(s: Seq<u8>) -> Option<(Seq<u8>, Seq<u8>)>
    decreases s.len(),
    via spec_parse_items_dec
{
    match spec_parse_byte(s) {
        None => None,
        Some(pr) => if pr.1.len() > 0 && pr.1[0] == COMMA {
            match spec_parse_items(pr.1.skip(1)) {
                None => None,
                Some(qr) => Some((seq![pr.0] + qr.0, qr.1)),
            }
        } else if pr.1.len() > 0 && pr.1[0] == RBRACK {
            Some((seq![pr.0], pr.1.skip(1)))
        } else {
            None
        },
    }
}

#[via_fn]
proof fn spec_parse_items_dec(s: Seq<u8>) {
    lemma_spec_parse_byte_consumes(s);
}

proof fn lemma_spec_parse_items_consumes(s: Seq<u8>)
    ensures
        spec_parse_items(s) matches Some(pr) ==> pr.1.len() < s.len(),
    decreases s.len(),
{
    lemma_spec_parse_byte_consumes(s);
    match spec_parse_byte(s) {
        None => {},
        Some(pr) => {
            if pr.1.len() > 0 && pr.1[0] == COMMA {
                lemma_spec_parse_items_consumes(pr.1.skip(1));
            }
        },
    }
}

/// Reads one path value: a bracketed list of byte values.
pub open spec fn spec_parse_array(s: Seq<u8>) -> Option<(Seq<u8>, Seq<u8>)> {
    if s.len() == 0 || s[0] != LBRACK {
        None
    } else if s.len() >= 2 && s[1] == RBRACK {
        Some((Seq::empty(), s.skip(2)))
    } else {
        spec_parse_items(s.skip(1))
    }
}

proof fn lemma_spec_parse_array_consumes(s: Seq<u8>)
    ensures
        spec_parse_array(s) matches Some(pr) ==> pr.1.len() < s.len(),
{
    if s.len() > 0 && s[0] == LBRACK && !(s.len() >= 2 && s[1] == RBRACK) {
        lemma_spec_parse_items_consumes(s.skip(1));
    }
}

/// Reads one or more comma-separated path values.
pub open spec fn spec_parse_keeps1(s: Seq<u8>) -> Option<(Seq<Seq<u8>>, Seq<u8>)>
    decreases s.len(),
    via spec_parse_keeps1_dec
{
    match spec_parse_array(s) {
        None => None,
        Some(pr) => if pr.1.len() > 0 && pr.1[0] == COMMA {
            match spec_parse_keeps1(pr.1.skip(1)) {
                None => None,
                Some(qr) => Some((seq![pr.0] + qr.0, qr.1)),
            }
        } else {
            Some((seq![pr.0], pr.1))
        },
    }
}

#[via_fn]
proof fn spec_parse_keeps1_dec(s: Seq<u8>) {
    lemma_spec_parse_array_consumes(s);
}

/// Reads the `keep_files` list body: empty when no path value follows.
pub open spec fn spec_parse_keeps(s: Seq<u8>) -> Option<(Seq<Seq<u8>>, Seq<u8>)> {
    if s.len() == 0 || s[0] != LBRACK {
        Some((Seq::empty(), s))
    } else {
        spec_parse_keeps1(s)
    }
}

/// Reads one change entry: a bracketed pair of an algorithm name and a
/// path value.
pub open spec fn spec_parse_change(s: Seq<u8>) -> Option<((Algo, Seq<u8>), Seq<u8>)> {
    if s.len() == 0 || s[0] != LBRACK {
        None
    } else {
        let r0 = s.skip(1);
        let named: Option<(Algo, Seq<u8>)> = if r0.len() >= 9 && r0.subrange(0, 9) == algo_name(
            Algo::XDelta3,
        ) {
            Some((Algo::XDelta3, r0.skip(9)))
        } else if r0.len() >= 6 && r0.subrange(0, 6) == algo_name(Algo::AsIs) {
            Some((Algo::AsIs, r0.skip(6)))
        } else {
            None
        };
        match named {
            None => None,
            Some(ar) => if ar.1.len() > 0 && ar.1[0] == COMMA {
                match spec_parse_array(ar.1.skip(1)) {
                    None => None,
                    Some(pr) => if pr.1.len() > 0 && pr.1[0] == RBRACK {
                        Some(((ar.0, pr.0), pr.1.skip(1)))
                    } else {
                        None
                    },
                }
            } else {
                None
            },
        }
    }
}

proof fn lemma_spec_parse_change_consumes(s: Seq<u8>)
    ensures
        spec_parse_change(s) matches Some(pr) ==> pr.1.len() < s.len(),
{
    if s.len() > 0 && s[0] == LBRACK {
        let r0 = s.skip(1);
        if r0.len() >= 9 && r0.subrange(0, 9) == algo_name(Algo::XDelta3) {
            lemma_spec_parse_array_consumes(r0.skip(9).skip(1));
        } else if r0.len() >= 6 && r0.subrange(0, 6) == algo_name(Algo::AsIs) {
            lemma_spec_parse_array_consumes(r0.skip(6).skip(1));
        }
    }
}

/// Reads one or more comma-separated change entries.
pub open spec fn spec_parse_changes1(s: Seq<u8>) -> Option<(Seq<(Algo, Seq<u8>)>, Seq<u8>)>
    decreases s.len(),
    via spec_parse_changes1_dec
{
    match spec_parse_change(s) {
        None => None,
        Some(pr) => if pr.1.len() > 0 && pr.1[0] == COMMA {
            match spec_parse_changes1(pr.1.skip(1)) {
                None => None,
                Some(qr) => Some((seq![pr.0] + qr.0, qr.1)),
            }
        } else {
            Some((seq![pr.0], pr.1))
        },
    }
}

#[via_fn]
proof fn spec_parse_changes1_dec(s: Seq<u8>) {
    lemma_spec_parse_change_consumes(s);
}

/// Reads the `changes` list body: empty when no entry follows.
pub open spec fn spec_parse_changes(s: Seq<u8>) -> Option<(Seq<(Algo, Seq<u8>)>, Seq<u8>)> {
    if s.len() == 0 || s[0] != LBRACK {
        Some((Seq::empty(), s))
    } else {
        spec_parse_changes1(s)
    }
}

/// Reads a whole manifest document: the version string, the kept paths and
/// the change entries, or nothing where the bytes do not follow the
/// canonical form.
pub open spec fn spec_parse_manifest(s: Seq<u8>) -> Option<
    (Seq<u8>, Seq<Seq<u8>>, Seq<(Algo, Seq<u8>)>),
> {
    if s.len() < 12 || s.subrange(0, 12) != lit_head() {
        None
    } else {
        match spec_unescape(s.skip(12)) {
            None => None,
            Some(vr) => if vr.1.len() >= 16 && vr.1.subrange(0, 16) == lit_keep() {
                match spec_parse_keeps(vr.1.skip(16)) {
                    None => None,
                    Some(kr) => if kr.1.len() >= 13 && kr.1.subrange(0, 13) == lit_changes() {
                        match spec_parse_changes(kr.1.skip(13)) {
                            None => None,
                            Some(cr) => if cr.1 == lit_tail() {
                                Some((vr.0, kr.0, cr.0))
                            } else {
                                None
                            },
                        }
                    } else {
                        None
                    },
                }
            } else {
                None
            },
        }
    }
}

/// Whether the input holds exactly `lit` at `pos`.
fn match_lit(b: &Vec<u8>, pos: usize, lit: &Vec<u8>) -> (r: bool)
    requires
        pos <= b@.len(),
    ensures
        r == (pos + lit@.len() <= b@.len() && b@.subrange(pos as int, pos + lit@.len()) == lit@),
{
    if b.len() - pos < lit.len() {
        proof {
            assert(pos + lit@.len() > b@.len());
        }
        return false;
    }
    let mut j: usize = 0;
    while j < lit.len()
        invariant
            j <= lit@.len(),
            pos + lit@.len() <= b@.len(),
            b@.len() <= usize::MAX,
            forall|k: int| 0 <= k < j ==> b@[pos + k] == lit@[k],
        decreases lit@.len() - j,
    {
        if b[pos + j] != lit[j] {
            proof {
                assert(b@.subrange(pos as int, pos + lit@.len())[j as int] == b@[pos + j]);
            }
            return false;
        }
        j = j + 1;
    }
    proof {
        assert(b@.subrange(pos as int, pos + lit@.len()) =~= lit@);
    }
    true
}

/// The value of a lower-case hex digit byte.
fn hex_val(b: u8) -> (r: Option<u8>)
    ensures
        r matches Some(v) ==> is_hex_lower(b) && v == hex_value(b) && v < 16,
        r is None ==> !is_hex_lower(b),
{
    if 48 <= b && b <= 57 {
        Some(b - 48)
    } else if 97 <= b && b <= 102 {
        Some(b - 87)
    } else {
        None
    }
}

/// Reads the escaped version string at `pos`, mirroring [`spec_unescape`];
/// the closing quote is not consumed.
fn parse_version_raw(b: &Vec<u8>, pos: usize) -> (r: Option<(Vec<u8>, usize)>)
    requires
        pos <= b@.len(),
    ensures
        match spec_unescape(b@.skip(pos as int)) {
            None => r is None,
            Some(pr) => r matches Some(q) && q.0@ == pr.0 && pos <= q.1 <= b@.len() && b@.skip(
                q.1 as int,
            ) == pr.1,
        },
    decreases b@.len() - pos,
{
    let ghost s = b@.skip(pos as int);
    if pos >= b.len() {
        proof {
            assert(s.len() == 0);
        }
        return None;
    }
    proof {
        assert(s[0] == b@[pos as int]);
        assert(s.skip(1) =~= b@.skip(pos + 1));
    }
    let c = b[pos];
    if c == QUOTE {
        return Some((Vec::new(), pos));
    }
    if c == BACKSLASH {
        if pos + 1 >= b.len() {
            proof {
                assert(s.len() < 2);
            }
            return None;
        }
        proof {
            assert(s[1] == b@[pos + 1]);
            assert(s.skip(2) =~= b@.skip(pos + 2));
        }
        let e = b[pos + 1];
        if e == QUOTE || e == BACKSLASH {
            match parse_version_raw(b, pos + 2) {
                None => None,
                Some((mut out, p)) => {
                    let ghost sub = out@;
                    out.insert(0, e);
                    proof {
                        assert(out@ =~= seq![e] + sub);
                    }
                    Some((out, p))
                },
            }
        } else if e == LOWER_U {
            if b.len() - pos < 6 {
                proof {
                    assert(s.len() < 6);
                }
                return None;
            }
            proof {
                assert(s[2] == b@[pos + 2]);
                assert(s[3] == b@[pos + 3]);
                assert(s[4] == b@[pos + 4]);
                assert(s[5] == b@[pos + 5]);
                assert(s.skip(6) =~= b@.skip(pos + 6));
            }
            if b[pos + 2] != DIGIT_ZERO || b[pos + 3] != DIGIT_ZERO {
                return None;
            }
            let hi = match hex_val(b[pos + 4]) {
                Some(v) => v,
                None => {
                    return None;
                },
            };
            let lo = match hex_val(b[pos + 5]) {
                Some(v) => v,
                None => {
                    return None;
                },
            };
            match parse_version_raw(b, pos + 6) {
                None => None,
                Some((mut out, p)) => {
                    let ghost sub = out@;
                    out.insert(0, hi * 16 + lo);
                    proof {
                        assert(out@ =~= seq![(hex_value(s[4]) * 16 + hex_value(s[5])) as u8] + sub);
                    }
                    Some((out, p))
                },
            }
        } else {
            None
        }
    } else {
        match parse_version_raw(b, pos + 1) {
            None => None,
            Some((mut out, p)) => {
                let ghost sub = out@;
                out.insert(0, c);
                proof {
                    assert(out@ =~= seq![c] + sub);
                }
                Some((out, p))
            },
        }
    }
}

/// Reads one decimal byte value at `pos`, mirroring [`spec_parse_byte`].
fn parse_byte_raw(b: &Vec<u8>, pos: usize) -> (r: Option<(u8, usize)>)
    requires
        pos <= b@.len(),
    ensures
        match spec_parse_byte(b@.skip(pos as int)) {
            None => r is None,
            Some(pr) => r matches Some(q) && q.0 == pr.0 && pos < q.1 <= b@.len() && b@.skip(
                q.1 as int,
            ) == pr.1,
        },
{
    let ghost s = b@.skip(pos as int);
    if pos >= b.len() || b[pos] < 48 || b[pos] > 57 {
        proof {
            if s.len() > 0 {
                assert(s[0] == b@[pos as int]);
            }
        }
        return None;
    }
    proof {
        assert(s[0] == b@[pos as int]);
        assert(s.skip(1) =~= b@.skip(pos + 1));
    }
    if b[pos] == DIGIT_ZERO {
        return Some((0, pos + 1));
    }
    let mut val: u16 = (b[pos] - 48) as u16;
    let mut p = pos + 1;
    if p < b.len() && 48 <= b[p] && b[p] <= 57 {
        proof {
            assert(s[1] == b@[pos + 1]);
            assert(s.skip(2) =~= b@.skip(pos + 2));
        }
        val = val * 10 + (b[p] - 48) as u16;
        p = p + 1;
        if p < b.len() && 48 <= b[p] && b[p] <= 57 {
            proof {
                assert(s[2] == b@[pos + 2]);
                assert(s.skip(3) =~= b@.skip(pos + 3));
            }
            val = val * 10 + (b[p] - 48) as u16;
            p = p + 1;
        }
    }
    if val > 255 {
        return None;
    }
    Some((val as u8, p))
}

/// Reads the items and closing bracket of a non-empty byte array,
/// mirroring [`spec_parse_items`].
fn parse_items_raw(b: &Vec<u8>, pos: usize) -> (r: Option<(Vec<u8>, usize)>)
    requires
        pos <= b@.len(),
    ensures
        match spec_parse_items(b@.skip(pos as int)) {
            None => r is None,
            Some(pr) => r matches Some(q) && q.0@ == pr.0 && pos < q.1 <= b@.len() && b@.skip(
                q.1 as int,
            ) == pr.1,
        },
    decreases b@.len() - pos,
{
    let ghost s = b@.skip(pos as int);
    match parse_byte_raw(b, pos) {
        None => None,
        Some((n, p1)) => {
            proof {
                if p1 < b@.len() {
                    assert(b@.skip(p1 as int)[0] == b@[p1 as int]);
                    assert(b@.skip(p1 as int).skip(1) =~= b@.skip(p1 + 1));
                }
            }
            if p1 < b.len() && b[p1] == COMMA {
                match parse_items_raw(b, p1 + 1) {
                    None => None,
                    Some((mut ns, p2)) => {
                        let ghost sub = ns@;
                        ns.insert(0, n);
                        proof {
                            assert(ns@ =~= seq![n] + sub);
                        }
                        Some((ns, p2))
                    },
                }
            } else if p1 < b.len() && b[p1] == RBRACK {
                let mut one: Vec<u8> = Vec::new();
                one.push(n);
                proof {
                    assert(one@ =~= seq![n]);
                }
                Some((one, p1 + 1))
            } else {
                None
            }
        },
    }
}

/// Reads one path value at `pos`, mirroring [`spec_parse_array`].
fn parse_array_raw(b: &Vec<u8>, pos: usize) -> (r: Option<(Vec<u8>, usize)>)
    requires
        pos <= b@.len(),
    ensures
        match spec_parse_array(b@.skip(pos as int)) {
            None => r is None,
            Some(pr) => r matches Some(q) && q.0@ == pr.0 && pos < q.1 <= b@.len() && b@.skip(
                q.1 as int,
            ) == pr.1,
        },
{
    let ghost s = b@.skip(pos as int);
    if pos >= b.len() || b[pos] != LBRACK {
        proof {
            if s.len() > 0 {
                assert(s[0] == b@[pos as int]);
            }
        }
        return None;
    }
    proof {
        assert(s[0] == b@[pos as int]);
        assert(s.skip(1) =~= b@.skip(pos + 1));
        if s.len() >= 2 {
            assert(s[1] == b@[pos + 1]);
            assert(s.skip(2) =~= b@.skip(pos + 2));
        }
    }
    if pos + 1 < b.len() && b[pos + 1] == RBRACK {
        return Some((Vec::new(), pos + 2));
    }
    parse_items_raw(b, pos + 1)
}

/// Reads one or more comma-separated path values, mirroring
/// [`spec_parse_keeps1`].
fn parse_keeps1_raw(b: &Vec<u8>, pos: usize) -> (r: Option<(Vec<Vec<u8>>, usize)>)
    requires
        pos <= b@.len(),
    ensures
        match spec_parse_keeps1(b@.skip(pos as int)) {
            None => r is None,
            Some(pr) => r matches Some(q) && crate::manifest::paths_view(q.0@) == pr.0 && pos
                < q.1 <= b@.len() && b@.skip(q.1 as int) == pr.1,
        },
    decreases b@.len() - pos,
{
    match parse_array_raw(b, pos) {
        None => None,
        Some((a, p1)) => {
            proof {
                if p1 < b@.len() {
                    assert(b@.skip(p1 as int)[0] == b@[p1 as int]);
                    assert(b@.skip(p1 as int).skip(1) =~= b@.skip(p1 + 1));
                }
            }
            if p1 < b.len() && b[p1] == COMMA {
                match parse_keeps1_raw(b, p1 + 1) {
                    None => None,
                    Some((mut ks, p2)) => {
                        let ghost sub = ks@;
                        let ghost av = a@;
                        ks.insert(0, a);
                        proof {
                            assert(crate::manifest::paths_view(ks@) =~= seq![av]
                                + crate::manifest::paths_view(sub));
                        }
                        Some((ks, p2))
                    },
                }
            } else {
                let ghost av = a@;
                let mut one: Vec<Vec<u8>> = Vec::new();
                one.push(a);
                proof {
                    assert(crate::manifest::paths_view(one@) =~= seq![av]);
                }
                Some((one, p1))
            }
        },
    }
}

/// Reads the `keep_files` list body, mirroring [`spec_parse_keeps`].
fn parse_keeps_raw(b: &Vec<u8>, pos: usize) -> (r: Option<(Vec<Vec<u8>>, usize)>)
    requires
        pos <= b@.len(),
    ensures
        match spec_parse_keeps(b@.skip(pos as int)) {
            None => r is None,
            Some(pr) => r matches Some(q) && crate::manifest::paths_view(q.0@) == pr.0 && pos
                <= q.1 <= b@.len() && b@.skip(q.1 as int) == pr.1,
        },
{
    let ghost s = b@.skip(pos as int);
    if pos >= b.len() || b[pos] != LBRACK {
        proof {
            if s.len() > 0 {
                assert(s[0] == b@[pos as int]);
            }
            assert(crate::manifest::paths_view(Seq::<Vec<u8>>::empty()) =~= Seq::<Seq<u8>>::empty());
        }
        return Some((Vec::new(), pos));
    }
    proof {
        assert(s[0] == b@[pos as int]);
    }
    parse_keeps1_raw(b, pos)
}

/// Reads one change entry at `pos`, mirroring [`spec_parse_change`].
fn parse_change_raw(b: &Vec<u8>, pos: usize) -> (r: Option<((Algo, Vec<u8>), usize)>)
    requires
        pos <= b@.len(),
    ensures
        match spec_parse_change(b@.skip(pos as int)) {
            None => r is None,
            Some(pr) => r matches Some(q) && q.0.0 == pr.0.0 && q.0.1@ == pr.0.1 && pos < q.1
                <= b@.len() && b@.skip(q.1 as int) == pr.1,
        },
{
    let ghost s = b@.skip(pos as int);
    if pos >= b.len() || b[pos] != LBRACK {
        proof {
            if s.len() > 0 {
                assert(s[0] == b@[pos as int]);
            }
        }
        return None;
    }
    let p0 = pos + 1;
    let ghost r0 = s.skip(1);
    proof {
        assert(s[0] == b@[pos as int]);
        assert(r0 =~= b@.skip(p0 as int));
    }
    let xdelta = lit_xdelta_vec();
    let asis = lit_asis_vec();
    proof {
        assert(xdelta@ =~= algo_name(Algo::XDelta3));
        assert(asis@ =~= algo_name(Algo::AsIs));
    }
    proof {
        if p0 + 9 <= b@.len() {
            assert(r0.subrange(0, 9) =~= b@.subrange(p0 as int, p0 + 9));
        }
        if p0 + 6 <= b@.len() {
            assert(r0.subrange(0, 6) =~= b@.subrange(p0 as int, p0 + 6));
        }
    }
    let (algo, p1): (Algo, usize) = if match_lit(b, p0, &xdelta) {
        proof {
            assert(r0.skip(9) =~= b@.skip(p0 + 9));
        }
        (Algo::XDelta3, p0 + 9)
    } else if match_lit(b, p0, &asis) {
        proof {
            assert(r0.skip(6) =~= b@.skip(p0 + 6));
        }
        (Algo::AsIs, p0 + 6)
    } else {
        return None;
    };
    proof {
        if p1 < b@.len() {
            assert(b@.skip(p1 as int)[0] == b@[p1 as int]);
            assert(b@.skip(p1 as int).skip(1) =~= b@.skip(p1 + 1));
        }
    }
    if p1 >= b.len() || b[p1] != COMMA {
        return None;
    }
    match parse_array_raw(b, p1 + 1) {
        None => None,
        Some((a, p2)) => {
            proof {
                if p2 < b@.len() {
                    assert(b@.skip(p2 as int)[0] == b@[p2 as int]);
                    assert(b@.skip(p2 as int).skip(1) =~= b@.skip(p2 + 1));
                }
            }
            if p2 < b.len() && b[p2] == RBRACK {
                Some(((algo, a), p2 + 1))
            } else {
                None
            }
        },
    }
}

/// Reads one or more comma-separated change entries, mirroring
/// [`spec_parse_changes1`].
fn parse_changes1_raw(b: &Vec<u8>, pos: usize) -> (r: Option<(Vec<(Algo, Vec<u8>)>, usize)>)
    requires
        pos <= b@.len(),
    ensures
        match spec_parse_changes1(b@.skip(pos as int)) {
            None => r is None,
            Some(pr) => r matches Some(q) && crate::manifest::changes_view(q.0@) == pr.0 && pos
                < q.1 <= b@.len() && b@.skip(q.1 as int) == pr.1,
        },
    decreases b@.len() - pos,
{
    match parse_change_raw(b, pos) {
        None => None,
        Some((c, p1)) => {
            proof {
                if p1 < b@.len() {
                    assert(b@.skip(p1 as int)[0] == b@[p1 as int]);
                    assert(b@.skip(p1 as int).skip(1) =~= b@.skip(p1 + 1));
                }
            }
            if p1 < b.len() && b[p1] == COMMA {
                match parse_changes1_raw(b, p1 + 1) {
                    None => None,
                    Some((mut cs, p2)) => {
                        let ghost sub = cs@;
                        let ghost cv = (c.0, c.1@);
                        cs.insert(0, c);
                        proof {
                            assert(crate::manifest::changes_view(cs@) =~= seq![cv]
                                + crate::manifest::changes_view(sub));
                        }
                        Some((cs, p2))
                    },
                }
            } else {
                let ghost cv = (c.0, c.1@);
                let mut one: Vec<(Algo, Vec<u8>)> = Vec::new();
                one.push(c);
                proof {
                    assert(crate::manifest::changes_view(one@) =~= seq![cv]);
                }
                Some((one, p1))
            }
        },
    }
}

/// Reads the `changes` list body, mirroring [`spec_parse_changes`].
fn parse_changes_raw(b: &Vec<u8>, pos: usize) -> (r: Option<(Vec<(Algo, Vec<u8>)>, usize)>)
    requires
        pos <= b@.len(),
    ensures
        match spec_parse_changes(b@.skip(pos as int)) {
            None => r is None,
            Some(pr) => r matches Some(q) && crate::manifest::changes_view(q.0@) == pr.0 && pos
                <= q.1 <= b@.len() && b@.skip(q.1 as int) == pr.1,
        },
{
    let ghost s = b@.skip(pos as int);
    if pos >= b.len() || b[pos] != LBRACK {
        proof {
            if s.len() > 0 {
                assert(s[0] == b@[pos as int]);
            }
            assert(crate::manifest::changes_view(Seq::<(Algo, Vec<u8>)>::empty()) =~= Seq::<
                (Algo, Seq<u8>),
            >::empty());
        }
        return Some((Vec::new(), pos));
    }
    proof {
        assert(s[0] == b@[pos as int]);
    }
    parse_changes1_raw(b, pos)
}

/// Reads a whole manifest document, mirroring [`spec_parse_manifest`].
fn parse_raw(b: &Vec<u8>) -> (r: Option<MetaData>)
    ensures
        match spec_parse_manifest(b@) {
            None => r is None,
            Some(t) => r matches Some(md) && md.version@ == t.0 && md.keep_view() == t.1
                && md.changes_view() == t.2,
        },
{
    let blen = b.len();
    proof {
        assert(b@.len() <= usize::MAX);
    }
    let head = lit_head_vec();
    proof {
        assert(head@ =~= lit_head());
        assert(b@.subrange(0, 12) =~= b@.subrange(0int, 0 + head@.len() as int));
    }
    if !match_lit(b, 0, &head) {
        return None;
    }
    proof {
        assert(b@.skip(12) =~= b@.skip(12int));
    }
    let (version, p1) = match parse_version_raw(b, 12) {
        Some(q) => q,
        None => {
            return None;
        },
    };
    let keep_lit = lit_keep_vec();
    proof {
        assert(keep_lit@ =~= lit_keep());
        if p1 + 16 <= b@.len() {
            assert(b@.skip(p1 as int).subrange(0, 16) =~= b@.subrange(p1 as int, p1 + 16));
        }
    }
    if !match_lit(b, p1, &keep_lit) {
        return None;
    }
    proof {
        assert(b@.skip(p1 as int).skip(16) =~= b@.skip(p1 + 16));
    }
    let (keep_files, p2) = match parse_keeps_raw(b, p1 + 16) {
        Some(q) => q,
        None => {
            return None;
        },
    };
    let changes_lit = lit_changes_vec();
    proof {
        assert(changes_lit@ =~= lit_changes());
        if p2 + 13 <= b@.len() {
            assert(b@.skip(p2 as int).subrange(0, 13) =~= b@.subrange(p2 as int, p2 + 13));
        }
    }
    if !match_lit(b, p2, &changes_lit) {
        return None;
    }
    proof {
        assert(b@.skip(p2 as int).skip(13) =~= b@.skip(p2 + 13));
    }
    let (changes, p3) = match parse_changes_raw(b, p2 + 13) {
        Some(q) => q,
        None => {
            return None;
        },
    };
    let tail = lit_tail_vec();
    proof {
        assert(tail@ =~= lit_tail());
        if p3 + 2 <= b@.len() {
            assert(b@.skip(p3 as int).subrange(0, 2) =~= b@.subrange(p3 as int, p3 + 2));
        }
    }
    if !match_lit(b, p3, &tail) || p3 + 2 != blen {
        proof {
            if b@.skip(p3 as int) == lit_tail() {
                assert(b@.skip(p3 as int).len() == 2);
                assert(b@.skip(p3 as int).subrange(0, 2) =~= b@.skip(p3 as int));
            }
        }
        return None;
    }
    proof {
        assert(b@.skip(p3 as int) =~= b@.subrange(p3 as int, p3 + 2));
        assert(b@.skip(p3 as int) == lit_tail());
    }
    Some(MetaData { version, keep_files, changes })
}

proof fn lemma_esc_first(s: Seq<u8>)
    requires
        s.len() > 0,
    ensures
        escape_bytes(s) == esc_byte(s[0]) + escape_bytes(s.skip(1)),
    decreases s.len(),
{
    if s.len() == 1 {
        assert(s.drop_last().len() == 0);
        assert(s.skip(1).len() == 0);
        assert(escape_bytes(s.drop_last()) == Seq::<u8>::empty());
        assert(escape_bytes(s.skip(1)) == Seq::<u8>::empty());
        assert(escape_bytes(s) == escape_bytes(s.drop_last()) + esc_byte(s.last()));
        assert(escape_bytes(s) =~= esc_byte(s[0]) + escape_bytes(s.skip(1)));
    } else {
        lemma_esc_first(s.drop_last());
        assert(s.drop_last()[0] == s[0]);
        assert(s.skip(1).drop_last() =~= s.drop_last().skip(1));
        assert(s.skip(1).last() == s.last());
        assert(s.skip(1).len() > 0);
        assert(escape_bytes(s.skip(1)) == escape_bytes(s.skip(1).drop_last()) + esc_byte(
            s.skip(1).last(),
        ));
        assert(escape_bytes(s.skip(1)) == escape_bytes(s.drop_last().skip(1)) + esc_byte(
            s.last(),
        ));
        assert(escape_bytes(s) == escape_bytes(s.drop_last()) + esc_byte(s.last()));
        assert(escape_bytes(s) == (esc_byte(s[0]) + escape_bytes(s.drop_last().skip(1)))
            + esc_byte(s.last()));
        assert((esc_byte(s[0]) + escape_bytes(s.drop_last().skip(1))) + esc_byte(s.last()) =~= esc_byte(
            s[0],
        ) + (escape_bytes(s.drop_last().skip(1)) + esc_byte(s.last())));
        assert(escape_bytes(s) =~= esc_byte(s[0]) + escape_bytes(s.skip(1)));
    }
}

proof fn lemma_unescape_escape(v: Seq<u8>, rest: Seq<u8>)
    requires
        rest.len() > 0,
        rest[0] == QUOTE,
    ensures
        spec_unescape(escape_bytes(v) + rest) == Some((v, rest)),
    decreases v.len(),
{
    let s = escape_bytes(v) + rest;
    if v.len() == 0 {
        assert(escape_bytes(v).len() == 0);
        assert(s =~= rest);
    } else {
        lemma_esc_first(v);
        lemma_unescape_escape(v.skip(1), rest);
        let e = esc_byte(v[0]);
        assert(s =~= e + (escape_bytes(v.skip(1)) + rest));
        let tail = escape_bytes(v.skip(1)) + rest;
        if v[0] == QUOTE {
            assert(s[0] == BACKSLASH && s[1] == QUOTE);
            assert(s.skip(2) =~= tail);
            assert(spec_unescape(s) == Some((seq![s[1]] + v.skip(1), rest)));
            assert(seq![s[1]] + v.skip(1) =~= v);
        } else if v[0] == BACKSLASH {
            assert(s[0] == BACKSLASH && s[1] == BACKSLASH);
            assert(s.skip(2) =~= tail);
            assert(seq![s[1]] + v.skip(1) =~= v);
        } else if v[0] < 32 {
            assert(s[0] == BACKSLASH && s[1] == LOWER_U && s[2] == DIGIT_ZERO && s[3]
                == DIGIT_ZERO);
            assert(s[4] == hex_digit(v[0] / 16) && s[5] == hex_digit(v[0] % 16));
            assert(v[0] / 16 < 16 && v[0] % 16 < 16);
            assert(is_hex_lower(hex_digit(v[0] / 16)));
            assert(is_hex_lower(hex_digit(v[0] % 16)));
            assert(hex_value(hex_digit(v[0] / 16)) == v[0] / 16);
            assert(hex_value(hex_digit(v[0] % 16)) == v[0] % 16);
            assert(s.skip(6) =~= tail);
            assert((v[0] / 16) * 16 + (v[0] % 16) == v[0]);
            assert(seq![(hex_value(s[4]) * 16 + hex_value(s[5])) as u8] + v.skip(1) =~= v);
        } else {
            assert(s[0] == v[0]);
            assert(s[0] != QUOTE && s[0] != BACKSLASH);
            assert(s.skip(1) =~= tail);
            assert(seq![s[0]] + v.skip(1) =~= v);
        }
    }
}

proof fn lemma_dec_digits_shape(n: u8)
    ensures
        dec_digits(n).len() > 0,
        is_digit(dec_digits(n)[0]),
        n >= 10 ==> dec_digits(n)[0] != DIGIT_ZERO,
{
}

proof fn lemma_parse_byte_dec(n: u8, rest: Seq<u8>)
    requires
        rest.len() == 0 || !is_digit(rest[0]),
    ensures
        spec_parse_byte(dec_digits(n) + rest) == Some((n, rest)),
{
    let s = dec_digits(n) + rest;
    lemma_dec_digits_shape(n);
    if n < 10 {
        assert(s[0] == (48 + n) as u8);
        if n == 0 {
            assert(s.skip(1) =~= rest);
        } else {
            assert(s.len() >= 2 ==> s[1] == rest[0]);
            assert(s.skip(1) =~= rest);
        }
    } else if n < 100 {
        assert(s[0] == (48 + n / 10) as u8 && s[1] == (48 + n % 10) as u8);
        assert(is_digit(s[1]));
        assert(s.len() >= 3 ==> s[2] == rest[0]);
        assert(s.skip(2) =~= rest);
        assert((n / 10) * 10 + (n % 10) == n);
    } else {
        assert(s[0] == (48 + n / 100) as u8 && s[1] == (48 + (n / 10) % 10) as u8 && s[2] == (48
            + n % 10) as u8);
        assert(is_digit(s[1]) && is_digit(s[2]));
        assert(s.skip(3) =~= rest);
        assert(n / 10 / 10 == n / 100) by (nonlinear_arith);
        assert((n / 10) * 10 + (n % 10) == n);
        assert((n / 10 / 10) * 10 + (n / 10) % 10 == n / 10);
        assert(((n / 100) * 10 + (n / 10) % 10) * 10 + (n % 10) == n) by (nonlinear_arith)
            requires
                n / 10 / 10 == n / 100,
                (n / 10) * 10 + (n % 10) == n,
                (n / 10 / 10) * 10 + (n / 10) % 10 == n / 10,
        ;
    }
}

proof fn lemma_bytes_items_first(s: Seq<u8>)
    requires
        s.len() > 0,
    ensures
        bytes_items(s) == dec_digits(s[0]) + (if s.len() == 1 {
            Seq::<u8>::empty()
        } else {
            seq![COMMA] + bytes_items(s.skip(1))
        }),
    decreases s.len(),
{
    if s.len() == 1 {
        assert(bytes_items(s) =~= dec_digits(s[0]) + Seq::<u8>::empty());
    } else if s.len() == 2 {
        assert(s.drop_last().len() == 1);
        assert(s.drop_last()[0] == s[0]);
        assert(s.skip(1).len() == 1);
        assert(s.skip(1)[0] == s.last());
        assert(bytes_items(s.drop_last()) == dec_digits(s[0]));
        assert(bytes_items(s.skip(1)) == dec_digits(s.last()));
        assert(bytes_items(s) == bytes_items(s.drop_last()) + seq![COMMA] + dec_digits(s.last()));
        assert(bytes_items(s) =~= dec_digits(s[0]) + (seq![COMMA] + bytes_items(s.skip(1))));
    } else {
        lemma_bytes_items_first(s.drop_last());
        assert(s.drop_last()[0] == s[0]);
        assert(s.skip(1).drop_last() =~= s.drop_last().skip(1));
        assert(s.skip(1).last() == s.last());
        assert(s.skip(1).len() > 1);
        assert(bytes_items(s.skip(1)) == bytes_items(s.skip(1).drop_last()) + seq![COMMA]
            + dec_digits(s.skip(1).last()));
        assert(bytes_items(s.skip(1)) == bytes_items(s.drop_last().skip(1)) + seq![COMMA]
            + dec_digits(s.last()));
        assert(bytes_items(s) == bytes_items(s.drop_last()) + seq![COMMA] + dec_digits(s.last()));
        assert(s.drop_last().len() > 1 ==> bytes_items(s.drop_last()) == dec_digits(s[0]) + (
        seq![COMMA] + bytes_items(s.drop_last().skip(1))));
        assert(bytes_items(s) == (dec_digits(s[0]) + (seq![COMMA] + bytes_items(
            s.drop_last().skip(1),
        ))) + seq![COMMA] + dec_digits(s.last()));
        assert(bytes_items(s) =~= dec_digits(s[0]) + (seq![COMMA] + bytes_items(s.skip(1))));
    }
}

proof fn lemma_parse_items_enc(s: Seq<u8>, rest: Seq<u8>)
    requires
        s.len() > 0,
    ensures
        spec_parse_items(bytes_items(s) + seq![RBRACK] + rest) == Some((s, rest)),
    decreases s.len(),
{
    let w = bytes_items(s) + seq![RBRACK] + rest;
    lemma_bytes_items_first(s);
    lemma_dec_digits_shape(s[0]);
    if s.len() == 1 {
        assert(w =~= dec_digits(s[0]) + (seq![RBRACK] + rest));
        lemma_parse_byte_dec(s[0], seq![RBRACK] + rest);
        let r = seq![RBRACK] + rest;
        assert(r[0] == RBRACK);
        assert(r.skip(1) =~= rest);
        assert(seq![s[0]] =~= s);
    } else {
        assert(w =~= dec_digits(s[0]) + (seq![COMMA] + (bytes_items(s.skip(1)) + seq![RBRACK]
            + rest)));
        let r = seq![COMMA] + (bytes_items(s.skip(1)) + seq![RBRACK] + rest);
        lemma_parse_byte_dec(s[0], r);
        assert(r[0] == COMMA);
        assert(r.skip(1) =~= bytes_items(s.skip(1)) + seq![RBRACK] + rest);
        lemma_parse_items_enc(s.skip(1), rest);
        assert(seq![s[0]] + s.skip(1) =~= s);
    }
}

proof fn lemma_parse_array_enc(s: Seq<u8>, rest: Seq<u8>)
    ensures
        spec_parse_array(bytes_array(s) + rest) == Some((s, rest)),
{
    let w = bytes_array(s) + rest;
    assert(w[0] == LBRACK);
    if s.len() == 0 {
        assert(bytes_items(s).len() == 0);
        assert(w.len() >= 2 && w[1] == RBRACK);
        assert(w.skip(2) =~= rest);
    } else {
        lemma_bytes_items_first(s);
        lemma_dec_digits_shape(s[0]);
        assert(w[1] == bytes_items(s)[0]);
        assert(is_digit(w[1]));
        assert(w[1] != RBRACK);
        assert(w.skip(1) =~= bytes_items(s) + seq![RBRACK] + rest);
        lemma_parse_items_enc(s, rest);
    }
}

proof fn lemma_keep_items_first(ps: Seq<Seq<u8>>)
    requires
        ps.len() > 0,
    ensures
        keep_items(ps) == bytes_array(ps[0]) + (if ps.len() == 1 {
            Seq::<u8>::empty()
        } else {
            seq![COMMA] + keep_items(ps.skip(1))
        }),
    decreases ps.len(),
{
    if ps.len() == 1 {
        assert(keep_items(ps) =~= bytes_array(ps[0]) + Seq::<u8>::empty());
    } else if ps.len() == 2 {
        assert(ps.drop_last().len() == 1);
        assert(ps.drop_last()[0] == ps[0]);
        assert(ps.skip(1).len() == 1);
        assert(ps.skip(1)[0] == ps.last());
        assert(keep_items(ps.drop_last()) == bytes_array(ps[0]));
        assert(keep_items(ps.skip(1)) == bytes_array(ps.last()));
        assert(keep_items(ps) == keep_items(ps.drop_last()) + seq![COMMA] + bytes_array(
            ps.last(),
        ));
        assert(keep_items(ps) =~= bytes_array(ps[0]) + (seq![COMMA] + keep_items(ps.skip(1))));
    } else {
        lemma_keep_items_first(ps.drop_last());
        assert(ps.drop_last()[0] == ps[0]);
        assert(ps.skip(1).drop_last() =~= ps.drop_last().skip(1));
        assert(ps.skip(1).last() == ps.last());
        assert(ps.skip(1).len() > 1);
        assert(keep_items(ps.skip(1)) == keep_items(ps.skip(1).drop_last()) + seq![COMMA]
            + bytes_array(ps.skip(1).last()));
        assert(keep_items(ps.skip(1)) == keep_items(ps.drop_last().skip(1)) + seq![COMMA]
            + bytes_array(ps.last()));
        assert(keep_items(ps) == keep_items(ps.drop_last()) + seq![COMMA] + bytes_array(
            ps.last(),
        ));
        assert(keep_items(ps) == (bytes_array(ps[0]) + (seq![COMMA] + keep_items(
            ps.drop_last().skip(1),
        ))) + seq![COMMA] + bytes_array(ps.last()));
        assert(keep_items(ps) =~= bytes_array(ps[0]) + (seq![COMMA] + keep_items(ps.skip(1))));
    }
}

proof fn lemma_parse_keeps1_enc(ps: Seq<Seq<u8>>, rest: Seq<u8>)
    requires
        ps.len() > 0,
        rest.len() == 0 || rest[0] != COMMA,
    ensures
        spec_parse_keeps1(keep_items(ps) + rest) == Some((ps, rest)),
    decreases ps.len(),
{
    let w = keep_items(ps) + rest;
    lemma_keep_items_first(ps);
    if ps.len() == 1 {
        assert(w =~= bytes_array(ps[0]) + rest);
        lemma_parse_array_enc(ps[0], rest);
        assert(seq![ps[0]] =~= ps);
    } else {
        let r = seq![COMMA] + (keep_items(ps.skip(1)) + rest);
        assert(w =~= bytes_array(ps[0]) + r);
        lemma_parse_array_enc(ps[0], r);
        assert(r[0] == COMMA);
        assert(r.skip(1) =~= keep_items(ps.skip(1)) + rest);
        lemma_parse_keeps1_enc(ps.skip(1), rest);
        assert(seq![ps[0]] + ps.skip(1) =~= ps);
    }
}

proof fn lemma_parse_keeps_enc(ps: Seq<Seq<u8>>, rest: Seq<u8>)
    requires
        rest.len() > 0,
        rest[0] == RBRACK,
    ensures
        spec_parse_keeps(keep_items(ps) + rest) == Some((ps, rest)),
{
    let w = keep_items(ps) + rest;
    if ps.len() == 0 {
        assert(keep_items(ps).len() == 0);
        assert(w =~= rest);
        assert(w[0] != LBRACK);
        assert(spec_parse_keeps(w) == Some((Seq::<Seq<u8>>::empty(), w)));
    } else {
        lemma_keep_items_first(ps);
        assert(w[0] == bytes_array(ps[0])[0]);
        assert(w[0] == LBRACK);
        lemma_parse_keeps1_enc(ps, rest);
    }
}

proof fn lemma_changes_items_first(cs: Seq<(Algo, Seq<u8>)>)
    requires
        cs.len() > 0,
    ensures
        changes_items(cs) == change_entry(cs[0]) + (if cs.len() == 1 {
            Seq::<u8>::empty()
        } else {
            seq![COMMA] + changes_items(cs.skip(1))
        }),
    decreases cs.len(),
{
    if cs.len() == 1 {
        assert(changes_items(cs) =~= change_entry(cs[0]) + Seq::<u8>::empty());
    } else if cs.len() == 2 {
        assert(cs.drop_last().len() == 1);
        assert(cs.drop_last()[0] == cs[0]);
        assert(cs.skip(1).len() == 1);
        assert(cs.skip(1)[0] == cs.last());
        assert(changes_items(cs.drop_last()) == change_entry(cs[0]));
        assert(changes_items(cs.skip(1)) == change_entry(cs.last()));
        assert(changes_items(cs) == changes_items(cs.drop_last()) + seq![COMMA] + change_entry(
            cs.last(),
        ));
        assert(changes_items(cs) =~= change_entry(cs[0]) + (seq![COMMA] + changes_items(
            cs.skip(1),
        )));
    } else {
        lemma_changes_items_first(cs.drop_last());
        assert(cs.drop_last()[0] == cs[0]);
        assert(cs.skip(1).drop_last() =~= cs.drop_last().skip(1));
        assert(cs.skip(1).last() == cs.last());
        assert(cs.skip(1).len() > 1);
        assert(changes_items(cs.skip(1)) == changes_items(cs.skip(1).drop_last()) + seq![COMMA]
            + change_entry(cs.skip(1).last()));
        assert(changes_items(cs.skip(1)) == changes_items(cs.drop_last().skip(1)) + seq![COMMA]
            + change_entry(cs.last()));
        assert(changes_items(cs) == changes_items(cs.drop_last()) + seq![COMMA] + change_entry(
            cs.last(),
        ));
        assert(changes_items(cs) == (change_entry(cs[0]) + (seq![COMMA] + changes_items(
            cs.drop_last().skip(1),
        ))) + seq![COMMA] + change_entry(cs.last()));
        assert(changes_items(cs) =~= change_entry(cs[0]) + (seq![COMMA] + changes_items(
            cs.skip(1),
        )));
    }
}

proof fn lemma_parse_change_enc(c: (Algo, Seq<u8>), rest: Seq<u8>)
    ensures
        spec_parse_change(change_entry(c) + rest) == Some((c, rest)),
{
    let w = change_entry(c) + rest;
    assert(w[0] == LBRACK);
    let r0 = w.skip(1);
    assert(r0 =~= algo_name(c.0) + (seq![COMMA] + (bytes_array(c.1) + (seq![RBRACK] + rest))));
    match c.0 {
        Algo::XDelta3 => {
            assert(r0.len() >= 9);
            assert(r0.subrange(0, 9) =~= algo_name(Algo::XDelta3));
            assert(r0.skip(9) =~= seq![COMMA] + (bytes_array(c.1) + (seq![RBRACK] + rest)));
            let a1 = r0.skip(9);
            assert(a1[0] == COMMA);
            assert(a1.skip(1) =~= bytes_array(c.1) + (seq![RBRACK] + rest));
            lemma_parse_array_enc(c.1, seq![RBRACK] + rest);
            let p1 = seq![RBRACK] + rest;
            assert(p1[0] == RBRACK);
            assert(p1.skip(1) =~= rest);
        },
        Algo::AsIs => {
            assert(r0.len() >= 9);
            assert(r0[1] == 65);
            assert(algo_name(Algo::XDelta3)[1] == 88);
            if r0.subrange(0, 9) == algo_name(Algo::XDelta3) {
                assert(r0.subrange(0, 9)[1] == r0[1]);
                assert(false);
            }
            assert(r0.subrange(0, 6) =~= algo_name(Algo::AsIs));
            assert(r0.skip(6) =~= seq![COMMA] + (bytes_array(c.1) + (seq![RBRACK] + rest)));
            let a1 = r0.skip(6);
            assert(a1[0] == COMMA);
            assert(a1.skip(1) =~= bytes_array(c.1) + (seq![RBRACK] + rest));
            lemma_parse_array_enc(c.1, seq![RBRACK] + rest);
            let p1 = seq![RBRACK] + rest;
            assert(p1[0] == RBRACK);
            assert(p1.skip(1) =~= rest);
        },
    }
}

#[verifier::rlimit(100)]
proof fn lemma_parse_changes1_enc(cs: Seq<(Algo, Seq<u8>)>, rest: Seq<u8>)
    requires
        cs.len() > 0,
        rest.len() == 0 || rest[0] != COMMA,
    ensures
        spec_parse_changes1(changes_items(cs) + rest) == Some((cs, rest)),
    decreases cs.len(),
{
    let w = changes_items(cs) + rest;
    lemma_changes_items_first(cs);
    if cs.len() == 1 {
        assert(w =~= change_entry(cs[0]) + rest);
        lemma_parse_change_enc(cs[0], rest);
        assert(seq![cs[0]] =~= cs);
    } else {
        let r = seq![COMMA] + (changes_items(cs.skip(1)) + rest);
        assert(w =~= change_entry(cs[0]) + r);
        lemma_parse_change_enc(cs[0], r);
        assert(r[0] == COMMA);
        assert(r.skip(1) =~= changes_items(cs.skip(1)) + rest);
        lemma_parse_changes1_enc(cs.skip(1), rest);
        assert(seq![cs[0]] + cs.skip(1) =~= cs);
    }
}

proof fn lemma_parse_changes_enc(cs: Seq<(Algo, Seq<u8>)>, rest: Seq<u8>)
    requires
        rest.len() > 0,
        rest[0] == RBRACK,
    ensures
        spec_parse_changes(changes_items(cs) + rest) == Some((cs, rest)),
{
    let w = changes_items(cs) + rest;
    if cs.len() == 0 {
        assert(changes_items(cs).len() == 0);
        assert(w =~= rest);
        assert(w[0] != LBRACK);
        assert(spec_parse_changes(w) == Some((Seq::<(Algo, Seq<u8>)>::empty(), w)));
    } else {
        lemma_changes_items_first(cs);
        assert(w[0] == change_entry(cs[0])[0]);
        assert(w[0] == LBRACK);
        lemma_parse_changes1_enc(cs, rest);
    }
}

/// Inversion law of the manifest format: the canonical encoding of any
/// manifest parses back to exactly the encoded version, kept paths and
/// change entries. In particular the encoding is injective, and path byte
/// strings (UTF-8 or not) survive the sidecar file losslessly.
#[verifier::rlimit(100)]
pub proof fn lemma_parse_encode_manifest(
    version: Seq<u8>,
    keeps: Seq<Seq<u8>>,
    changes: Seq<(Algo, Seq<u8>)>,
)
    ensures
        spec_parse_manifest(spec_encode_manifest(version, keeps, changes)) == Some(
            (version, keeps, changes),
        ),
{
    let s = spec_encode_manifest(version, keeps, changes);
    let rest1 = lit_keep() + keep_items(keeps) + lit_changes() + changes_items(changes)
        + lit_tail();
    assert(s =~= lit_head() + (escape_bytes(version) + rest1));
    assert(s.len() >= 12);
    assert(s.subrange(0, 12) =~= lit_head());
    assert(s.skip(12) =~= escape_bytes(version) + rest1);
    assert(rest1[0] == lit_keep()[0]);
    assert(rest1[0] == QUOTE);
    lemma_unescape_escape(version, rest1);
    let rest2 = lit_changes() + changes_items(changes) + lit_tail();
    assert(rest1 =~= lit_keep() + (keep_items(keeps) + rest2));
    assert(rest1.len() >= 16);
    assert(rest1.subrange(0, 16) =~= lit_keep());
    assert(rest1.skip(16) =~= keep_items(keeps) + rest2);
    assert(rest2[0] == lit_changes()[0]);
    assert(rest2[0] == RBRACK);
    lemma_parse_keeps_enc(keeps, rest2);
    let rest3 = changes_items(changes) + lit_tail();
    assert(rest2 =~= lit_changes() + rest3);
    assert(rest2.len() >= 13);
    assert(rest2.subrange(0, 13) =~= lit_changes());
    assert(rest2.skip(13) =~= rest3);
    assert(lit_tail()[0] == RBRACK);
    lemma_parse_changes_enc(changes, lit_tail());
}

/// The canonical encoding is injective: two manifests with the same
/// document are the same manifest.
pub proof fn lemma_encode_manifest_injective(
    v1: Seq<u8>,
    k1: Seq<Seq<u8>>,
    c1: Seq<(Algo, Seq<u8>)>,
    v2: Seq<u8>,
    k2: Seq<Seq<u8>>,
    c2: Seq<(Algo, Seq<u8>)>,
)
    requires
        spec_encode_manifest(v1, k1, c1) == spec_encode_manifest(v2, k2, c2),
    ensures
        v1 == v2 && k1 == k2 && c1 == c2,
{
    lemma_parse_encode_manifest(v1, k1, c1);
    lemma_parse_encode_manifest(v2, k2, c2);
}

/// Reads a manifest back from the sidecar file's bytes. A document is
/// accepted exactly when it is the canonical encoding of some manifest, and
/// the result is that manifest: its fields are pinned against every
/// decomposition of the bytes. Anything else is a parse error.
pub fn parse_manifest(bytes: &Vec<u8>) -> (r: Result<MetaData, Error>)
    ensures
        r matches Ok(md) ==> bytes@ == spec_encode_manifest(
            md.version@,
            md.keep_view(),
            md.changes_view(),
        ),
        r matches Ok(md) ==> forall|v: Seq<u8>, k: Seq<Seq<u8>>, c: Seq<(Algo, Seq<u8>)>|
            bytes@ == #[trigger] spec_encode_manifest(v, k, c) ==> (md.version@ == v
                && md.keep_view() == k && md.changes_view() == c),
        r matches Err(e) ==> forall|v: Seq<u8>, k: Seq<Seq<u8>>, c: Seq<(Algo, Seq<u8>)>|
            bytes@ != #[trigger] spec_encode_manifest(v, k, c),
{
    match parse_raw(bytes) {
        Some(md) => {
            let re = encode_manifest(&md);
            if bytes_eq(&re, bytes) {
                proof {
                    assert forall|v: Seq<u8>, k: Seq<Seq<u8>>, c: Seq<(Algo, Seq<u8>)>|
                        bytes@ == #[trigger] spec_encode_manifest(v, k, c) implies (md.version@
                        == v && md.keep_view() == k && md.changes_view() == c) by {
                        lemma_parse_encode_manifest(v, k, c);
                    }
                }
                Ok(md)
            } else {
                proof {
                    assert forall|v: Seq<u8>, k: Seq<Seq<u8>>, c: Seq<(Algo, Seq<u8>)>|
                        bytes@ != #[trigger] spec_encode_manifest(v, k, c) by {
                        if bytes@ == spec_encode_manifest(v, k, c) {
                            lemma_parse_encode_manifest(v, k, c);
                        }
                    }
                }
                Err(Error::MetaDataParseError)
            }
        },
        None => {
            proof {
                assert forall|v: Seq<u8>, k: Seq<Seq<u8>>, c: Seq<(Algo, Seq<u8>)>|
                    bytes@ != #[trigger] spec_encode_manifest(v, k, c) by {
                    if bytes@ == spec_encode_manifest(v, k, c) {
                        lemma_parse_encode_manifest(v, k, c);
                    }
                }
            }
            Err(Error::MetaDataParseError)
        },
    }
}

} // verus!
