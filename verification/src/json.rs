//! A byte-exact JSON codec for the entry list and for the clip endpoint's
//! request and response bodies.
//!
//! The encoder produces one canonical form: no extra whitespace, keys in a
//! fixed order, strings escaped with `\"`, `\\` and `\u00XY` for control
//! bytes. The decoder accepts exactly that canonical form and rejects
//! everything else; a stored list that does not parse is treated by callers
//! as absent. Both directions are specified byte for byte, and decoding is
//! proved to invert encoding.

use vstd::prelude::*;
use vstd::string::StringSliceAdditionalSpecFns;
use vstd::utf8::encode_utf8;
use vstd::utf8::valid_utf8;

use crate::state::Entry;
use crate::state::EntryModel;

verus! {

/// The ASCII code of the lowercase hex digit for `n` (`n < 16`).
pub open spec fn hex_digit(n: u8) -> u8 {
    if n < 10 {
        (0x30 + n) as u8
    } else {
        (0x61 + (n - 10)) as u8
    }
}

/// The value of an ASCII lowercase hex digit, if `c` is one.
pub open spec fn unhex(c: u8) -> Option<u8> {
    if 0x30 <= c <= 0x39 {
        Some((c - 0x30) as u8)
    } else if 0x61 <= c <= 0x66 {
        Some((c - 0x61 + 10) as u8)
    } else {
        None
    }
}

/// The escaped form of one string byte: quote and backslash get a
/// backslash escape, control bytes a `\u00XY` escape, all others stand as
/// themselves.
pub open spec fn escape_byte(b: u8) -> Seq<u8> {
    if b == 0x22 {
        seq![0x5Cu8, 0x22u8]
    } else if b == 0x5C {
        seq![0x5Cu8, 0x5Cu8]
    } else if b < 0x20 {
        seq![0x5Cu8, 0x75u8, 0x30u8, 0x30u8, hex_digit(b / 16), hex_digit(b % 16)]
    } else {
        seq![b]
    }
}

/// The escaped form of a whole string body.
pub open spec fn escape_bytes(s: Seq<u8>) -> Seq<u8>
    decreases s.len(),
{
    if s.len() == 0 {
        Seq::empty()
    } else {
        escape_byte(s[0]) + escape_bytes(s.drop_first())
    }
}

/// A JSON string literal: the escaped body between double quotes.
pub open spec fn quoted(s: Seq<u8>) -> Seq<u8> {
    seq![0x22u8] + escape_bytes(s) + seq![0x22u8]
}

/// The bytes of a JSON boolean.
pub open spec fn bool_bytes(b: bool) -> Seq<u8> {
    if b {
        seq![0x74u8, 0x72u8, 0x75u8, 0x65u8]
    } else {
        seq![0x66u8, 0x61u8, 0x6Cu8, 0x73u8, 0x65u8]
    }
}

/// The bytes of `{"description":`.
pub open spec fn key_description() -> Seq<u8> {
    seq![
        0x7Bu8,
        0x22u8,
        0x64u8,
        0x65u8,
        0x73u8,
        0x63u8,
        0x72u8,
        0x69u8,
        0x70u8,
        0x74u8,
        0x69u8,
        0x6Fu8,
        0x6Eu8,
        0x22u8,
        0x3Au8,
    ]
}

/// The bytes of `,"completed":`.
pub open spec fn key_completed() -> Seq<u8> {
    seq![
        0x2Cu8,
        0x22u8,
        0x63u8,
        0x6Fu8,
        0x6Du8,
        0x70u8,
        0x6Cu8,
        0x65u8,
        0x74u8,
        0x65u8,
        0x64u8,
        0x22u8,
        0x3Au8,
    ]
}

/// The bytes of `,"editing":`.
pub open spec fn key_editing() -> Seq<u8> {
    seq![
        0x2Cu8,
        0x22u8,
        0x65u8,
        0x64u8,
        0x69u8,
        0x74u8,
        0x69u8,
        0x6Eu8,
        0x67u8,
        0x22u8,
        0x3Au8,
    ]
}

/// The bytes of `{"address":`.
pub open spec fn key_address() -> Seq<u8> {
    seq![
        0x7Bu8,
        0x22u8,
        0x61u8,
        0x64u8,
        0x64u8,
        0x72u8,
        0x65u8,
        0x73u8,
        0x73u8,
        0x22u8,
        0x3Au8,
    ]
}

/// The canonical JSON object for one entry.
pub open spec fn entry_json(e: EntryModel) -> Seq<u8> {
    key_description() + quoted(e.description) + key_completed() + bool_bytes(e.completed)
        + key_editing() + bool_bytes(e.editing) + seq![0x7Du8]
}

/// The comma-separated items of the entry array.
pub open spec fn entries_items(s: Seq<EntryModel>) -> Seq<u8>
    decreases s.len(),
{
    if s.len() == 0 {
        Seq::empty()
    } else if s.len() == 1 {
        entry_json(s[0])
    } else {
        entry_json(s[0]) + seq![0x2Cu8] + entries_items(s.drop_first())
    }
}

/// The canonical JSON array for the whole entry list.
pub open spec fn entries_json(s: Seq<EntryModel>) -> Seq<u8> {
    seq![0x5Bu8] + entries_items(s) + seq![0x5Du8]
}

/// The canonical JSON request body for a clip request: `{"address":` then
/// the quoted link text then `}`.
pub open spec fn clip_request_json(address: Seq<u8>) -> Seq<u8> {
    key_address() + quoted(address) + seq![0x7Du8]
}

/// Consumes the exact literal `lit` from the front of `s`, or fails.
pub open spec fn expect(lit: Seq<u8>, s: Seq<u8>) -> Option<Seq<u8>> {
    if s.len() >= lit.len() && s.subrange(0, lit.len() as int) == lit {
        Some(s.skip(lit.len() as int))
    } else {
        None
    }
}

/// Parses a string body up to its closing quote, undoing the encoder's
/// escapes, and returns the content bytes and the remainder after the
/// closing quote. Raw control bytes and unknown escapes fail.
pub open spec fn parse_string_body(s: Seq<u8>) -> Option<(Seq<u8>, Seq<u8>)>
    decreases s.len(),
{
    if s.len() == 0 {
        None
    } else if s[0] == 0x22 {
        Some((Seq::empty(), s.drop_first()))
    } else if s[0] == 0x5C {
        if s.len() >= 2 && (s[1] == 0x22 || s[1] == 0x5C) {
            match parse_string_body(s.skip(2)) {
                Some(p) => Some((seq![s[1]] + p.0, p.1)),
                None => None,
            }
        } else if s.len() >= 6 && s[1] == 0x75 && s[2] == 0x30 && s[3] == 0x30 {
            match (unhex(s[4]), unhex(s[5])) {
                (Some(hi), Some(lo)) => if hi * 16 + lo < 0x20 {
                    match parse_string_body(s.skip(6)) {
                        Some(p) => Some((seq![(hi * 16 + lo) as u8] + p.0, p.1)),
                        None => None,
                    }
                } else {
                    None
                },
                _ => None,
            }
        } else {
            None
        }
    } else if s[0] >= 0x20 {
        match parse_string_body(s.drop_first()) {
            Some(p) => Some((seq![s[0]] + p.0, p.1)),
            None => None,
        }
    } else {
        None
    }
}

/// Parses a JSON boolean.
pub open spec fn parse_bool(s: Seq<u8>) -> Option<(bool, Seq<u8>)> {
    match expect(bool_bytes(true), s) {
        Some(r) => Some((true, r)),
        None => match expect(bool_bytes(false), s) {
            Some(r) => Some((false, r)),
            None => None,
        },
    }
}

/// Parses one canonical entry object.
pub open spec fn parse_entry(s: Seq<u8>) -> Option<(EntryModel, Seq<u8>)> {
    match expect(key_description() + seq![0x22u8], s) {
        Some(s1) => match parse_string_body(s1) {
            Some(p1) => match expect(key_completed(), p1.1) {
                Some(s3) => match parse_bool(s3) {
                    Some(p2) => match expect(key_editing(), p2.1) {
                        Some(s5) => match parse_bool(s5) {
                            Some(p3) => match expect(seq![0x7Du8], p3.1) {
                                Some(s7) => if valid_utf8(p1.0) {
                                    Some(
                                        (
                                            EntryModel {
                                                description: p1.0,
                                                completed: p2.0,
                                                editing: p3.0,
                                            },
                                            s7,
                                        ),
                                    )
                                } else {
                                    None
                                },
                                None => None,
                            },
                            None => None,
                        },
                        None => None,
                    },
                    None => None,
                },
                None => None,
            },
            None => None,
        },
        None => None,
    }
}

/// Parses one or more comma-separated entry objects.
pub open spec fn parse_items(s: Seq<u8>) -> Option<(Seq<EntryModel>, Seq<u8>)>
    decreases s.len(),
{
    match parse_entry(s) {
        Some(p) => if p.1.len() >= 1 && p.1[0] == 0x2C {
            if p.1.len() < s.len() {
                match parse_items(p.1.drop_first()) {
                    Some(q) => Some((seq![p.0] + q.0, q.1)),
                    None => None,
                }
            } else {
                None
            }
        } else {
            Some((seq![p.0], p.1))
        },
        None => None,
    }
}

/// Decodes a whole stored entry list; only the canonical form is accepted.
pub open spec fn decode_entries_spec(s: Seq<u8>) -> Option<Seq<EntryModel>> {
    if s.len() == 2 && s[0] == 0x5B && s[1] == 0x5D {
        Some(Seq::empty())
    } else {
        match expect(seq![0x5Bu8], s) {
            Some(s1) => match parse_items(s1) {
                Some(p) => if p.1 == seq![0x5Du8] {
                    Some(p.0)
                } else {
                    None
                },
                None => None,
            },
            None => None,
        }
    }
}

/// Decodes the clip endpoint's success response `{"address":"..."}` to the
/// address bytes.
pub open spec fn decode_address_spec(s: Seq<u8>) -> Option<Seq<u8>> {
    match expect(key_address() + seq![0x22u8], s) {
        Some(s1) => match parse_string_body(s1) {
            Some(p) => if p.1 == seq![0x7Du8] && valid_utf8(p.0) {
                Some(p.0)
            } else {
                None
            },
            None => None,
        },
        None => None,
    }
}

/// Splitting off the last byte splits its escape off the escaped form.
proof fn lemma_escape_bytes_snoc(t: Seq<u8>, b: u8)
    ensures
        escape_bytes(t + seq![b]) == escape_bytes(t) + escape_byte(b),
    decreases t.len(),
{
    if t.len() == 0 {
        reveal_with_fuel(escape_bytes, 3);
        assert(t + seq![b] =~= seq![b]);
        assert((t + seq![b]).drop_first() =~= Seq::<u8>::empty());
        assert(escape_bytes(t + seq![b]) =~= escape_bytes(t) + escape_byte(b));
    } else {
        assert((t + seq![b]).drop_first() =~= t.drop_first() + seq![b]);
        lemma_escape_bytes_snoc(t.drop_first(), b);
        assert(escape_bytes(t + seq![b]) == escape_byte(t[0]) + (escape_bytes(t.drop_first())
            + escape_byte(b)));
        assert(escape_byte(t[0]) + (escape_bytes(t.drop_first()) + escape_byte(b))
            =~= escape_bytes(t) + escape_byte(b));
    }
}

/// Appends the escape of one byte.
fn push_escaped_byte(out: &mut Vec<u8>, b: u8)
    ensures
        final(out)@ == old(out)@ + escape_byte(b),
{
    if b == 0x22 {
        out.push(0x5C);
        out.push(0x22);
    } else if b == 0x5C {
        out.push(0x5C);
        out.push(0x5C);
    } else if b < 0x20 {
        out.push(0x5C);
        out.push(0x75);
        out.push(0x30);
        out.push(0x30);
        let hi = b / 16;
        let lo = b % 16;
        let hc = if hi < 10 {
            0x30 + hi
        } else {
            0x61 + (hi - 10)
        };
        let lc = if lo < 10 {
            0x30 + lo
        } else {
            0x61 + (lo - 10)
        };
        out.push(hc);
        out.push(lc);
    } else {
        out.push(b);
    }
    assert(out@ =~= old(out)@ + escape_byte(b));
}

/// Appends a quoted, escaped JSON string literal for the given text.
fn push_quoted(out: &mut Vec<u8>, text: &str)
    ensures
        final(out)@ == old(out)@ + quoted(text.spec_bytes()),
{
    let bytes = text.as_bytes();
    out.push(0x22);
    let ghost mid = out@;
    let mut i: usize = 0;
    while i < bytes.len()
        invariant
            i <= bytes@.len(),
            bytes@ == text.spec_bytes(),
            out@ == mid + escape_bytes(bytes@.subrange(0, i as int)),
        decreases bytes@.len() - i,
    {
        let ghost pre = out@;
        push_escaped_byte(out, bytes[i]);
        proof {
            assert(bytes@.subrange(0, i + 1) =~= bytes@.subrange(0, i as int) + seq![bytes@[
                i as int
            ]]);
            lemma_escape_bytes_snoc(bytes@.subrange(0, i as int), bytes@[i as int]);
            assert(out@ =~= mid + escape_bytes(bytes@.subrange(0, i + 1)));
        }
        i = i + 1;
    }
    proof {
        assert(bytes@.subrange(0, bytes@.len() as int) =~= bytes@);
    }
    out.push(0x22);
    assert(out@ =~= old(out)@ + quoted(text.spec_bytes()));
}

/// Appends the bytes of a JSON boolean.
fn push_bool(out: &mut Vec<u8>, b: bool)
    ensures
        final(out)@ == old(out)@ + bool_bytes(b),
{
    if b {
        out.push(0x74);
        out.push(0x72);
        out.push(0x75);
        out.push(0x65);
    } else {
        out.push(0x66);
        out.push(0x61);
        out.push(0x6C);
        out.push(0x73);
        out.push(0x65);
    }
    assert(out@ =~= old(out)@ + bool_bytes(b));
}

/// Appends `{"description":`.
fn push_key_description(out: &mut Vec<u8>)
    ensures
        final(out)@ == old(out)@ + key_description(),
{
    out.push(0x7B);
    out.push(0x22);
    out.push(0x64);
    out.push(0x65);
    out.push(0x73);
    out.push(0x63);
    out.push(0x72);
    out.push(0x69);
    out.push(0x70);
    out.push(0x74);
    out.push(0x69);
    out.push(0x6F);
    out.push(0x6E);
    out.push(0x22);
    out.push(0x3A);
    assert(out@ =~= old(out)@ + key_description());
}

/// Appends `,"completed":`.
fn push_key_completed(out: &mut Vec<u8>)
    ensures
        final(out)@ == old(out)@ + key_completed(),
{
    out.push(0x2C);
    out.push(0x22);
    out.push(0x63);
    out.push(0x6F);
    out.push(0x6D);
    out.push(0x70);
    out.push(0x6C);
    out.push(0x65);
    out.push(0x74);
    out.push(0x65);
    out.push(0x64);
    out.push(0x22);
    out.push(0x3A);
    assert(out@ =~= old(out)@ + key_completed());
}

/// Appends `,"editing":`.
fn push_key_editing(out: &mut Vec<u8>)
    ensures
        final(out)@ == old(out)@ + key_editing(),
{
    out.push(0x2C);
    out.push(0x22);
    out.push(0x65);
    out.push(0x64);
    out.push(0x69);
    out.push(0x74);
    out.push(0x69);
    out.push(0x6E);
    out.push(0x67);
    out.push(0x22);
    out.push(0x3A);
    assert(out@ =~= old(out)@ + key_editing());
}

/// Appends the canonical JSON object of one entry.
fn push_entry(out: &mut Vec<u8>, e: &Entry)
    ensures
        final(out)@ == old(out)@ + entry_json(e@),
{
    push_key_description(out);
    push_quoted(out, self_description(e));
    push_key_completed(out);
    push_bool(out, e.completed);
    push_key_editing(out);
    push_bool(out, e.editing);
    out.push(0x7D);
    assert(out@ =~= old(out)@ + entry_json(e@));
}

/// The description of an entry as a string slice.
fn self_description(e: &Entry) -> (r: &str)
    ensures
        r.spec_bytes() == e@.description,
{
    e.description.as_str()
}

/// Encodes the whole entry list in its canonical JSON form.
pub fn encode_entries(entries: &Vec<Entry>) -> (out: Vec<u8>)
    ensures
        out@ == entries_json(crate::state::views_of(entries@)),
{
    let ghost models = crate::state::views_of(entries@);
    let mut out: Vec<u8> = Vec::new();
    out.push(0x5B);
    let mut i: usize = 0;
    while i < entries.len()
        invariant
            i <= entries@.len(),
            models == crate::state::views_of(entries@),
            models.len() == entries@.len(),
            out@ == seq![0x5Bu8] + entries_items(models.subrange(0, i as int)) + if i
                < entries@.len() && i > 0 {
                seq![0x2Cu8]
            } else {
                Seq::<u8>::empty()
            },
        decreases entries@.len() - i,
    {
        push_entry(&mut out, &entries[i]);
        proof {
            lemma_entries_items_snoc(models, i as int);
        }
        if i + 1 < entries.len() {
            out.push(0x2C);
        }
        proof {
            assert(out@ =~= seq![0x5Bu8] + entries_items(models.subrange(0, i + 1)) + if i + 1
                < entries@.len() {
                seq![0x2Cu8]
            } else {
                Seq::<u8>::empty()
            });
        }
        i = i + 1;
    }
    out.push(0x5D);
    proof {
        assert(models.subrange(0, models.len() as int) =~= models);
        assert(out@ =~= entries_json(models));
    }
    out
}

/// Extending the item list by one entry appends a comma (when the prefix is
/// nonempty) and the entry's object.
proof fn lemma_entries_items_snoc(models: Seq<EntryModel>, i: int)
    requires
        0 <= i < models.len(),
    ensures
        i == 0 ==> entries_items(models.subrange(0, i + 1)) == entry_json(models[i]),
        i > 0 ==> entries_items(models.subrange(0, i + 1)) == entries_items(
            models.subrange(0, i),
        ) + seq![0x2Cu8] + entry_json(models[i]),
    decreases i,
{
    if i == 0 {
        assert(models.subrange(0, 1) =~= seq![models[0]]);
        assert(entries_items(seq![models[0]]) == entry_json(models[0]));
    } else {
        let t = models.subrange(0, i + 1);
        let h = models.subrange(0, i);
        assert(t.drop_first() =~= models.subrange(1, i + 1));
        assert(h.drop_first() =~= models.subrange(1, i));
        lemma_entries_items_snoc_shifted(models, 1, i);
    }
}

/// Helper for the snoc lemma: the item list of `models[from..=i]` grows at
/// its tail, for any window start.
proof fn lemma_entries_items_snoc_shifted(models: Seq<EntryModel>, from: int, i: int)
    requires
        0 < from <= i < models.len(),
    ensures
        entries_items(models.subrange(from - 1, i + 1)) == entries_items(
            models.subrange(from - 1, i),
        ) + seq![0x2Cu8] + entry_json(models[i]),
    decreases i - from,
{
    let t = models.subrange(from - 1, i + 1);
    let h = models.subrange(from - 1, i);
    if i == from {
        assert(t =~= seq![models[i - 1], models[i]]);
        assert(h =~= seq![models[i - 1]]);
        assert(t.drop_first() =~= seq![models[i]]);
        assert(entries_items(t) == entry_json(models[i - 1]) + seq![0x2Cu8] + entries_items(
            seq![models[i]],
        ));
        assert(entries_items(h) == entry_json(models[i - 1]));
    } else {
        assert(t.drop_first() =~= models.subrange(from, i + 1));
        assert(h.drop_first() =~= models.subrange(from, i));
        lemma_entries_items_snoc_shifted(models, from + 1, i);
        assert(t.len() > 1);
        assert(h.len() > 1);
        assert(entries_items(t) == entry_json(t[0]) + seq![0x2Cu8] + entries_items(
            models.subrange(from, i + 1),
        ));
        assert(entries_items(h) == entry_json(h[0]) + seq![0x2Cu8] + entries_items(
            models.subrange(from, i),
        ));
        assert(entries_items(t) =~= entries_items(h) + seq![0x2Cu8] + entry_json(models[i]));
    }
}

/// Encodes the clip request body for an already-trimmed link text.
pub fn encode_clip_request(address: &str) -> (out: Vec<u8>)
    ensures
        out@ == clip_request_json(address.spec_bytes()),
{
    let mut out: Vec<u8> = Vec::new();
    out.push(0x7B);
    out.push(0x22);
    out.push(0x61);
    out.push(0x64);
    out.push(0x64);
    out.push(0x72);
    out.push(0x65);
    out.push(0x73);
    out.push(0x73);
    out.push(0x22);
    out.push(0x3A);
    assert(out@ =~= key_address());
    push_quoted(&mut out, address);
    out.push(0x7D);
    assert(out@ =~= clip_request_json(address.spec_bytes()));
    out
}

/// Relies on String::from_utf8: it returns Ok exactly when the bytes are
/// valid UTF-8, and the returned string's bytes are the input bytes.
#[verifier::external_body]
fn string_from_utf8(v: Vec<u8>) -> (r: Option<String>)
    ensures
        r is Some <==> valid_utf8(v@),
        r matches Some(s) ==> encode_utf8(s@) == v@,
{
    String::from_utf8(v).ok()
}

/// The value of a lowercase hex digit byte, if it is one.
fn unhex_byte(c: u8) -> (r: Option<u8>)
    ensures
        r == unhex(c),
{
    if 0x30 <= c && c <= 0x39 {
        Some(c - 0x30)
    } else if 0x61 <= c && c <= 0x66 {
        Some(c - 0x61 + 10)
    } else {
        None
    }
}

/// Consumes the literal `lit` at `pos`, returning the position after it.
fn expect_at(s: &[u8], pos: usize, lit: &Vec<u8>) -> (r: Option<usize>)
    requires
        pos <= s@.len(),
    ensures
        match r {
            Some(np) => pos <= np <= s@.len() && np == pos + lit@.len() && expect(
                lit@,
                s@.skip(pos as int),
            ) == Some(s@.skip(np as int)),
            None => expect(lit@, s@.skip(pos as int)) is None,
        },
{
    let n = s.len();
    if n - pos < lit.len() {
        return None;
    }
    let mut i: usize = 0;
    while i < lit.len()
        invariant
            n == s@.len(),
            pos + lit@.len() <= s@.len(),
            i <= lit@.len(),
            forall|k: int| 0 <= k < i ==> s@[pos + k] == lit@[k],
        decreases lit@.len() - i,
    {
        if s[pos + i] != lit[i] {
            proof {
                let suf = s@.skip(pos as int);
                assert(suf.subrange(0, lit@.len() as int)[i as int] == s@[pos + i]);
            }
            return None;
        }
        i = i + 1;
    }
    proof {
        let suf = s@.skip(pos as int);
        assert(suf.subrange(0, lit@.len() as int) =~= lit@);
        assert(suf.skip(lit@.len() as int) =~= s@.skip(pos + lit@.len()));
    }
    Some(pos + lit.len())
}

/// The opening of an entry object: `{"description":` and the opening quote.
fn entry_open_bytes() -> (v: Vec<u8>)
    ensures
        v@ == key_description() + seq![0x22u8],
{
    let mut v: Vec<u8> = Vec::new();
    v.push(0x7B);
    v.push(0x22);
    v.push(0x64);
    v.push(0x65);
    v.push(0x73);
    v.push(0x63);
    v.push(0x72);
    v.push(0x69);
    v.push(0x70);
    v.push(0x74);
    v.push(0x69);
    v.push(0x6F);
    v.push(0x6E);
    v.push(0x22);
    v.push(0x3A);
    v.push(0x22);
    assert(v@ =~= key_description() + seq![0x22u8]);
    v
}

/// The bytes of `,"completed":`.
fn key_completed_bytes() -> (v: Vec<u8>)
    ensures
        v@ == key_completed(),
{
    let mut v: Vec<u8> = Vec::new();
    v.push(0x2C);
    v.push(0x22);
    v.push(0x63);
    v.push(0x6F);
    v.push(0x6D);
    v.push(0x70);
    v.push(0x6C);
    v.push(0x65);
    v.push(0x74);
    v.push(0x65);
    v.push(0x64);
    v.push(0x22);
    v.push(0x3A);
    assert(v@ =~= key_completed());
    v
}

/// The bytes of `,"editing":`.
fn key_editing_bytes() -> (v: Vec<u8>)
    ensures
        v@ == key_editing(),
{
    let mut v: Vec<u8> = Vec::new();
    v.push(0x2C);
    v.push(0x22);
    v.push(0x65);
    v.push(0x64);
    v.push(0x69);
    v.push(0x74);
    v.push(0x69);
    v.push(0x6E);
    v.push(0x67);
    v.push(0x22);
    v.push(0x3A);
    assert(v@ =~= key_editing());
    v
}

/// The bytes of `true`.
fn true_bytes() -> (v: Vec<u8>)
    ensures
        v@ == bool_bytes(true),
{
    let mut v: Vec<u8> = Vec::new();
    v.push(0x74);
    v.push(0x72);
    v.push(0x75);
    v.push(0x65);
    assert(v@ =~= bool_bytes(true));
    v
}

/// The bytes of `false`.
fn false_bytes() -> (v: Vec<u8>)
    ensures
        v@ == bool_bytes(false),
{
    let mut v: Vec<u8> = Vec::new();
    v.push(0x66);
    v.push(0x61);
    v.push(0x6C);
    v.push(0x73);
    v.push(0x65);
    assert(v@ =~= bool_bytes(false));
    v
}

/// The bytes of `}`.
fn close_brace_bytes() -> (v: Vec<u8>)
    ensures
        v@ == seq![0x7Du8],
{
    let mut v: Vec<u8> = Vec::new();
    v.push(0x7D);
    assert(v@ =~= seq![0x7Du8]);
    v
}

/// Parses a string body at `pos`, returning its unescaped content and the
/// position after the closing quote.
fn parse_string_at(s: &[u8], pos: usize) -> (r: Option<(Vec<u8>, usize)>)
    requires
        pos <= s@.len(),
    ensures
        match r {
            Some(p) => pos < p.1 <= s@.len() && parse_string_body(s@.skip(pos as int)) == Some(
                (p.0@, s@.skip(p.1 as int)),
            ),
            None => parse_string_body(s@.skip(pos as int)) is None,
        },
{
    let mut content: Vec<u8> = Vec::new();
    let mut i: usize = pos;
    loop
        invariant
            pos <= i <= s@.len(),
            match parse_string_body(s@.skip(i as int)) {
                Some(p) => parse_string_body(s@.skip(pos as int)) == Some((content@ + p.0, p.1)),
                None => parse_string_body(s@.skip(pos as int)) is None,
            },
        decreases s@.len() - i,
    {
        if i >= s.len() {
            proof {
                assert(s@.skip(i as int) =~= Seq::<u8>::empty());
            }
            return None;
        }
        let ghost suf = s@.skip(i as int);
        proof {
            assert(suf.len() == s@.len() - i);
            assert(suf[0] == s@[i as int]);
        }
        let b = s[i];
        if b == 0x22 {
            proof {
                assert(suf.drop_first() =~= s@.skip(i + 1));
                assert(content@ + Seq::<u8>::empty() =~= content@);
            }
            return Some((content, i + 1));
        } else if b == 0x5C {
            if s.len() - i >= 2 && (s[i + 1] == 0x22 || s[i + 1] == 0x5C) {
                proof {
                    assert(suf[1] == s@[i + 1]);
                    assert(suf.skip(2) =~= s@.skip(i + 2));
                }
                let ghost pre = content@;
                content.push(s[i + 1]);
                proof {
                    assert(content@ =~= pre + seq![suf[1]]);
                    if parse_string_body(s@.skip(i + 2)) is Some {
                        let p = parse_string_body(s@.skip(i + 2)).unwrap();
                        assert((pre + seq![suf[1]]) + p.0 =~= pre + (seq![suf[1]] + p.0));
                    }
                }
                i = i + 2;
            } else if s.len() - i >= 6 && s[i + 1] == 0x75 && s[i + 2] == 0x30 && s[i + 3]
                == 0x30 {
                proof {
                    assert(suf[1] == s@[i + 1]);
                    assert(suf[2] == s@[i + 2]);
                    assert(suf[3] == s@[i + 3]);
                    assert(suf[4] == s@[i + 4]);
                    assert(suf[5] == s@[i + 5]);
                    assert(suf.skip(6) =~= s@.skip(i + 6));
                }
                let hi = unhex_byte(s[i + 4]);
                let lo = unhex_byte(s[i + 5]);
                match (hi, lo) {
                    (Some(h), Some(l)) => {
                        let val = h * 16 + l;
                        if val < 0x20 {
                            let ghost pre = content@;
                            content.push(val);
                            proof {
                                assert(content@ =~= pre + seq![val]);
                                if parse_string_body(s@.skip(i + 6)) is Some {
                                    let p = parse_string_body(s@.skip(i + 6)).unwrap();
                                    assert((pre + seq![val]) + p.0 =~= pre + (seq![val] + p.0));
                                }
                            }
                            i = i + 6;
                        } else {
                            return None;
                        }
                    },
                    _ => {
                        return None;
                    },
                }
            } else {
                return None;
            }
        } else if b >= 0x20 {
            proof {
                assert(suf.drop_first() =~= s@.skip(i + 1));
            }
            let ghost pre = content@;
            content.push(b);
            proof {
                assert(content@ =~= pre + seq![suf[0]]);
                if parse_string_body(s@.skip(i + 1)) is Some {
                    let p = parse_string_body(s@.skip(i + 1)).unwrap();
                    assert((pre + seq![suf[0]]) + p.0 =~= pre + (seq![suf[0]] + p.0));
                }
            }
            i = i + 1;
        } else {
            return None;
        }
    }
}

/// Parses a JSON boolean at `pos`.
fn parse_bool_at(s: &[u8], pos: usize) -> (r: Option<(bool, usize)>)
    requires
        pos <= s@.len(),
    ensures
        match r {
            Some(p) => pos <= p.1 <= s@.len() && parse_bool(s@.skip(pos as int)) == Some(
                (p.0, s@.skip(p.1 as int)),
            ),
            None => parse_bool(s@.skip(pos as int)) is None,
        },
{
    let tl = true_bytes();
    let fl = false_bytes();
    match expect_at(s, pos, &tl) {
        Some(np) => Some((true, np)),
        None => match expect_at(s, pos, &fl) {
            Some(np) => Some((false, np)),
            None => None,
        },
    }
}

/// Parses one canonical entry object at `pos`.
fn parse_entry_at(s: &[u8], pos: usize) -> (r: Option<(Entry, usize)>)
    requires
        pos <= s@.len(),
    ensures
        match r {
            Some(p) => pos < p.1 <= s@.len() && parse_entry(s@.skip(pos as int)) == Some(
                (p.0@, s@.skip(p.1 as int)),
            ),
            None => parse_entry(s@.skip(pos as int)) is None,
        },
{
    let open = entry_open_bytes();
    let np = match expect_at(s, pos, &open) {
        Some(np) => np,
        None => {
            return None;
        },
    };
    let (content, np) = match parse_string_at(s, np) {
        Some(p) => p,
        None => {
            return None;
        },
    };
    let kc = key_completed_bytes();
    let np2 = match expect_at(s, np, &kc) {
        Some(q) => q,
        None => {
            return None;
        },
    };
    let (completed, np3) = match parse_bool_at(s, np2) {
        Some(p) => p,
        None => {
            return None;
        },
    };
    let ke = key_editing_bytes();
    let np4 = match expect_at(s, np3, &ke) {
        Some(q) => q,
        None => {
            return None;
        },
    };
    let (editing, np5) = match parse_bool_at(s, np4) {
        Some(p) => p,
        None => {
            return None;
        },
    };
    let cb = close_brace_bytes();
    let np6 = match expect_at(s, np5, &cb) {
        Some(q) => q,
        None => {
            return None;
        },
    };
    let description = match string_from_utf8(content) {
        Some(d) => d,
        None => {
            return None;
        },
    };
    let e = Entry { description, completed, editing };
    Some((e, np6))
}

/// Decodes a stored entry list from its canonical JSON bytes; anything
/// else, including non-UTF-8 description content, is rejected.
#[verifier::rlimit(80)]
pub fn decode_entries(s: &[u8]) -> (r: Option<Vec<Entry>>)
    ensures
        match r {
            Some(v) => decode_entries_spec(s@) == Some(crate::state::views_of(v@)),
            None => decode_entries_spec(s@) is None,
        },
{
    let n = s.len();
    if n == 2 && s[0] == 0x5B && s[1] == 0x5D {
        let v: Vec<Entry> = Vec::new();
        proof {
            assert(crate::state::views_of(v@) =~= Seq::<EntryModel>::empty());
        }
        return Some(v);
    }
    if n == 0 || s[0] != 0x5B {
        proof {
            if expect(seq![0x5Bu8], s@) is Some {
                assert(s@.subrange(0, 1)[0] == s@[0]);
            }
        }
        return None;
    }
    let mut out: Vec<Entry> = Vec::new();
    let mut pos: usize = 1;
    loop
        invariant
            1 <= pos <= s@.len(),
            n == s@.len(),
            !(n == 2 && s@[0] == 0x5B && s@[1] == 0x5D),
            s@[0] == 0x5B,
            match parse_items(s@.skip(pos as int)) {
                Some(q) => parse_items(s@.skip(1)) == Some(
                    (crate::state::views_of(out@) + q.0, q.1),
                ),
                None => parse_items(s@.skip(1)) is None,
            },
        decreases s@.len() - pos,
    {
        let ghost suf = s@.skip(pos as int);
        let (e, np) = match parse_entry_at(s, pos) {
            Some(p) => p,
            None => {
                proof {
                    assert(s@.subrange(0, 1) =~= seq![0x5Bu8]);
                    assert(expect(seq![0x5Bu8], s@) == Some(s@.skip(1)));
                }
                return None;
            },
        };
        let ghost rest = s@.skip(np as int);
        if np < n && s[np] == 0x2C {
            proof {
                assert(rest[0] == s@[np as int]);
                assert(rest.len() == n - np < suf.len());
                assert(rest.drop_first() =~= s@.skip(np + 1));
            }
            let ghost pre = out@;
            out.push(e);
            proof {
                assert(crate::state::views_of(out@) =~= crate::state::views_of(pre) + seq![e@]);
                if parse_items(s@.skip(np + 1)) is Some {
                    let q = parse_items(s@.skip(np + 1)).unwrap();
                    assert(parse_items(suf) == Some((seq![e@] + q.0, q.1)));
                    assert((crate::state::views_of(pre) + (seq![e@] + q.0)) =~= (
                    crate::state::views_of(pre) + seq![e@]) + q.0);
                } else {
                    assert(parse_items(suf) is None);
                }
            }
            pos = np + 1;
        } else {
            proof {
                if rest.len() >= 1 && rest[0] == 0x2C {
                    assert(rest[0] == s@[np as int]);
                    assert(np < n);
                }
                assert(parse_items(suf) == Some((seq![e@], rest)));
            }
            if np < n {
                if s[np] == 0x5D && np + 1 == n {
                    let ghost pre = out@;
                    out.push(e);
                    proof {
                        assert(crate::state::views_of(out@) =~= crate::state::views_of(pre)
                            + seq![e@]);
                        assert(rest[0] == s@[np as int]);
                        assert(rest =~= seq![0x5Du8]);
                        assert(s@.subrange(0, 1) =~= seq![0x5Bu8]);
                        assert(expect(seq![0x5Bu8], s@) == Some(s@.skip(1)));
                    }
                    return Some(out);
                } else {
                    proof {
                        if rest == seq![0x5Du8] {
                            assert(rest.len() == 1);
                            assert(rest[0] == s@[np as int]);
                        }
                        assert(s@.subrange(0, 1) =~= seq![0x5Bu8]);
                        assert(expect(seq![0x5Bu8], s@) == Some(s@.skip(1)));
                    }
                    return None;
                }
            } else {
                proof {
                    if rest == seq![0x5Du8] {
                        assert(rest.len() == 1);
                    }
                    assert(rest.len() == 0);
                    assert(s@.subrange(0, 1) =~= seq![0x5Bu8]);
                    assert(expect(seq![0x5Bu8], s@) == Some(s@.skip(1)));
                }
                return None;
            }
        }
    }
}

/// Decodes the clip endpoint's success response to its address text;
/// anything but the canonical `{"address":"..."}` form is rejected.
pub fn decode_address(s: &[u8]) -> (r: Option<String>)
    ensures
        match r {
            Some(addr) => decode_address_spec(s@) == Some(encode_utf8(addr@)),
            None => decode_address_spec(s@) is None,
        },
{
    let n = s.len();
    let mut open: Vec<u8> = Vec::new();
    open.push(0x7B);
    open.push(0x22);
    open.push(0x61);
    open.push(0x64);
    open.push(0x64);
    open.push(0x72);
    open.push(0x65);
    open.push(0x73);
    open.push(0x73);
    open.push(0x22);
    open.push(0x3A);
    open.push(0x22);
    assert(open@ =~= key_address() + seq![0x22u8]);
    proof {
        assert(s@.skip(0) =~= s@);
    }
    let np = match expect_at(s, 0, &open) {
        Some(np) => np,
        None => {
            return None;
        },
    };
    let (content, np2) = match parse_string_at(s, np) {
        Some(p) => p,
        None => {
            return None;
        },
    };
    let ghost rest = s@.skip(np2 as int);
    if np2 < n {
        if s[np2] == 0x7D && np2 + 1 == n {
            proof {
                assert(rest[0] == s@[np2 as int]);
                assert(rest =~= seq![0x7Du8]);
            }
            match string_from_utf8(content) {
                Some(addr) => Some(addr),
                None => {
                    return None;
                },
            }
        } else {
            proof {
                if rest == seq![0x7Du8] {
                    assert(rest.len() == 1);
                    assert(rest[0] == s@[np2 as int]);
                }
            }
            return None;
        }
    } else {
        proof {
            if rest == seq![0x7Du8] {
                assert(rest.len() == 1);
            }
            assert(rest.len() == 0);
        }
        return None;
    }
}

/// A literal at the front of a byte stream is consumed exactly.
proof fn lemma_expect_prefix(lit: Seq<u8>, rest: Seq<u8>)
    ensures
        expect(lit, lit + rest) == Some(rest),
{
    let s = lit + rest;
    assert(s.subrange(0, lit.len() as int) =~= lit);
    assert(s.skip(lit.len() as int) =~= rest);
}

/// Parsing undoes escaping: the string parser applied to an escaped body,
/// its closing quote and a remainder returns the body and the remainder.
proof fn lemma_parse_string_escape(content: Seq<u8>, rest: Seq<u8>)
    ensures
        parse_string_body(escape_bytes(content) + seq![0x22u8] + rest) == Some((content, rest)),
    decreases content.len(),
{
    let s = escape_bytes(content) + seq![0x22u8] + rest;
    if content.len() == 0 {
        assert(s =~= seq![0x22u8] + rest);
        assert(s[0] == 0x22);
        assert(s.drop_first() =~= rest);
        assert(content =~= Seq::<u8>::empty());
    } else {
        let b = content[0];
        let tail = content.drop_first();
        lemma_parse_string_escape(tail, rest);
        let inner = escape_bytes(tail) + seq![0x22u8] + rest;
        assert(s =~= escape_byte(b) + inner);
        if b == 0x22 || b == 0x5C {
            assert(s =~= seq![0x5Cu8, b] + inner);
            assert(s[0] == 0x5C && s[1] == b);
            assert(s.len() >= 2);
            assert(s.skip(2) =~= inner);
            assert(seq![s[1]] + tail =~= content);
        } else if b < 0x20 {
            assert(s =~= seq![
                0x5Cu8,
                0x75u8,
                0x30u8,
                0x30u8,
                hex_digit(b / 16),
                hex_digit(b % 16),
            ] + inner);
            assert(s[0] == 0x5C && s[1] == 0x75 && s[2] == 0x30 && s[3] == 0x30);
            assert(s[4] == hex_digit(b / 16) && s[5] == hex_digit(b % 16));
            assert(s.len() >= 6);
            assert(unhex(hex_digit(b / 16)) == Some(b / 16));
            assert(unhex(hex_digit(b % 16)) == Some(b % 16));
            assert((b / 16) * 16 + (b % 16) == b);
            assert(s.skip(6) =~= inner);
            assert(seq![b] + tail =~= content);
        } else {
            assert(s =~= seq![b] + inner);
            assert(s[0] == b);
            assert(b != 0x22 && b != 0x5C && b >= 0x20);
            assert(s.drop_first() =~= inner);
            assert(seq![s[0]] + tail =~= content);
        }
    }
}

/// A JSON boolean at the front of a byte stream parses to its value.
proof fn lemma_parse_bool_prefix(b: bool, rest: Seq<u8>)
    ensures
        parse_bool(bool_bytes(b) + rest) == Some((b, rest)),
{
    let s = bool_bytes(b) + rest;
    if b {
        lemma_expect_prefix(bool_bytes(true), rest);
    } else {
        lemma_expect_prefix(bool_bytes(false), rest);
        if expect(bool_bytes(true), s) is Some {
            assert(s.subrange(0, 4)[0] == s[0]);
            assert(s[0] == 0x66);
            assert(bool_bytes(true)[0] == 0x74);
        }
    }
}

/// One canonical entry object at the front of a byte stream parses back to
/// its entry, provided its description is valid UTF-8 (it always is for an
/// encoded entry).
#[verifier::rlimit(100)]
#[verifier::spinoff_prover]
proof fn lemma_parse_entry_prefix(e: EntryModel, rest: Seq<u8>)
    requires
        valid_utf8(e.description),
    ensures
        parse_entry(entry_json(e) + rest) == Some((e, rest)),
{
    let s = entry_json(e) + rest;
    let r5 = seq![0x7Du8] + rest;
    let r4 = bool_bytes(e.editing) + r5;
    let r3 = key_editing() + r4;
    let r2 = bool_bytes(e.completed) + r3;
    let r1 = key_completed() + r2;
    let r0 = escape_bytes(e.description) + seq![0x22u8] + r1;
    assert(s =~= (key_description() + seq![0x22u8]) + r0);
    lemma_expect_prefix(key_description() + seq![0x22u8], r0);
    assert(r0 =~= escape_bytes(e.description) + seq![0x22u8] + r1);
    lemma_parse_string_escape(e.description, r1);
    lemma_expect_prefix(key_completed(), r2);
    lemma_parse_bool_prefix(e.completed, r3);
    lemma_expect_prefix(key_editing(), r4);
    lemma_parse_bool_prefix(e.editing, r5);
    lemma_expect_prefix(seq![0x7Du8], rest);
}

/// An encoded item list followed by the closing bracket parses back to its
/// entries, provided every description is valid UTF-8.
#[verifier::rlimit(100)]
#[verifier::spinoff_prover]
proof fn lemma_parse_items_prefix(es: Seq<EntryModel>)
    requires
        es.len() > 0,
        forall|i: int| 0 <= i < es.len() ==> valid_utf8(#[trigger] es[i].description),
    ensures
        parse_items(entries_items(es) + seq![0x5Du8]) == Some((es, seq![0x5Du8])),
    decreases es.len(),
{
    let s = entries_items(es) + seq![0x5Du8];
    if es.len() == 1 {
        assert(s =~= entry_json(es[0]) + seq![0x5Du8]);
        lemma_parse_entry_prefix(es[0], seq![0x5Du8]);
        assert(seq![0x5Du8][0] == 0x5D);
        assert(seq![es[0]] =~= es);
    } else {
        let tail = es.drop_first();
        assert(forall|i: int|
            0 <= i < tail.len() ==> valid_utf8(#[trigger] tail[i].description)) by {
            assert(forall|i: int| 0 <= i < tail.len() ==> tail[i] == es[i + 1]);
        }
        lemma_parse_items_prefix(tail);
        let inner = entries_items(tail) + seq![0x5Du8];
        let r = seq![0x2Cu8] + inner;
        assert(s =~= entry_json(es[0]) + r);
        lemma_parse_entry_prefix(es[0], r);
        assert(parse_entry(s) == Some((es[0], r)));
        assert(r[0] == 0x2C);
        assert(r.len() >= 1);
        assert(entry_json(es[0]).len() > 0) by {
            assert(entry_json(es[0]).len() >= key_description().len());
        }
        assert(r.len() < s.len());
        assert(r.drop_first() =~= inner);
        assert(parse_items(r.drop_first()) == Some((tail, seq![0x5Du8])));
        assert(parse_items(s) == Some((seq![es[0]] + tail, seq![0x5Du8])));
        assert(seq![es[0]] + tail =~= es);
    }
}

/// Round trip for storage: decoding an encoded entry list yields the same
/// entries, in the same order, with the same fields. Descriptions that come
/// from real strings are always valid UTF-8, so the premise always holds
/// for encoded states.
pub proof fn lemma_entries_round_trip(es: Seq<EntryModel>)
    requires
        forall|i: int| 0 <= i < es.len() ==> valid_utf8(#[trigger] es[i].description),
    ensures
        decode_entries_spec(entries_json(es)) == Some(es),
{
    let s = entries_json(es);
    if es.len() == 0 {
        assert(entries_items(es) =~= Seq::<u8>::empty());
        assert(s =~= seq![0x5Bu8, 0x5Du8]);
        assert(s.len() == 2 && s[0] == 0x5B && s[1] == 0x5D);
        assert(es =~= Seq::<EntryModel>::empty());
    } else {
        let body = entries_items(es) + seq![0x5Du8];
        assert(s =~= seq![0x5Bu8] + body);
        lemma_expect_prefix(seq![0x5Bu8], body);
        lemma_parse_items_prefix(es);
        assert(entries_items(es).len() > 0) by {
            assert(entry_json(es[0]).len() >= key_description().len());
            if es.len() == 1 {
            } else {
                assert(entries_items(es) == entry_json(es[0]) + seq![0x2Cu8] + entries_items(
                    es.drop_first(),
                ));
            }
        }
        assert(s.len() > 2);
    }
}

/// Round trip for the address object: decoding an encoded
/// `{"address":"..."}` body yields the same address bytes.
pub proof fn lemma_address_round_trip(address: Seq<u8>)
    requires
        valid_utf8(address),
    ensures
        decode_address_spec(clip_request_json(address)) == Some(address),
{
    let s = clip_request_json(address);
    let r1 = seq![0x7Du8];
    let r0 = escape_bytes(address) + seq![0x22u8] + r1;
    assert(s =~= (key_address() + seq![0x22u8]) + r0);
    lemma_expect_prefix(key_address() + seq![0x22u8], r0);
    assert(r0 =~= escape_bytes(address) + seq![0x22u8] + r1);
    lemma_parse_string_escape(address, r1);
}

} // verus!
