//! The wire format: one envelope per datagram, as a JSON record.
//!
//! The payload text is fixed by [`spec_encode`]: a single object holding
//! the protocol tag, the sender's descriptor, the sender's address in
//! dotted-decimal form, and its concurrency hint. String content is
//! escaped for quote and backslash. The decoder accepts exactly what
//! [`spec_decode`] accepts — the canonical record, with any digit count
//! and any escapable content — and returns a typed failure on everything
//! else, so a listener can drop garbage and keep going. Encoding is
//! total: a verified encoder has no internal invariant left to violate,
//! so there is no encode-side error type. Encoding then decoding gives
//! the envelope back exactly ([`lemma_round_trip`]).

use vstd::prelude::*;

use crate::address::{
    dec_rep, digit_prefix_len, digit_val, digits_val, dotted_rep, is_dec_digit,
    lemma_dec_rep_digits, lemma_digits_val_prefix, lemma_number_round_trip, number_val,
    push_decimal, push_dotted, Ipv4Address,
};
use crate::descriptor::{DescriptorModel, DeviceDescriptor, Envelope, EnvelopeModel};

verus! {

/// The payload was not a well-formed serialized envelope: truncated,
/// foreign schema, or a field of the wrong shape.
#[derive(Clone, Copy, Debug, PartialEq, Eq, Structural)]
pub struct DecodeError;

/// How one character stands inside a JSON string: quote and backslash
/// behind a backslash, anything else as itself.
pub open spec fn escape_char(c: char) -> Seq<char> {
    if c == '"' || c == '\\' {
        seq!['\\', c]
    } else {
        seq![c]
    }
}

/// The body of a JSON string: each character escaped.
pub open spec fn escape(s: Seq<char>) -> Seq<char>
    decreases s.len(),
{
    if s.len() == 0 {
        Seq::empty()
    } else {
        escape_char(s.first()) + escape(s.drop_first())
    }
}

/// A JSON string: the escaped body between two quotes.
pub open spec fn quoted(s: Seq<char>) -> Seq<char> {
    seq!['"'] + escape(s) + seq!['"']
}

/// The canonical wire text of an envelope.
pub open spec fn spec_encode(v: EnvelopeModel) -> Seq<char> {
    "{\"identifier\":"@ + quoted(v.protocol_tag) + enc_after_tag(v)
}

/// The record text after the protocol tag.
pub open spec fn enc_after_tag(v: EnvelopeModel) -> Seq<char> {
    ",\"device_info\":{\"real_name\":"@ + quoted(v.descriptor.display_name) + enc_after_display(v)
}

/// The record text after the display name.
pub open spec fn enc_after_display(v: EnvelopeModel) -> Seq<char> {
    ",\"user_name\":"@ + quoted(v.descriptor.user_name) + enc_after_user(v)
}

/// The record text after the user name.
pub open spec fn enc_after_user(v: EnvelopeModel) -> Seq<char> {
    ",\"device_name\":"@ + quoted(v.descriptor.host_name) + enc_after_host(v)
}

/// The record text after the host name.
pub open spec fn enc_after_host(v: EnvelopeModel) -> Seq<char> {
    ",\"platform\":"@ + quoted(v.descriptor.platform) + enc_after_platform(v)
}

/// The record text after the platform.
pub open spec fn enc_after_platform(v: EnvelopeModel) -> Seq<char> {
    ",\"distro\":"@ + quoted(v.descriptor.distro) + enc_after_distro(v)
}

/// The record text after the distro: the address and the tail.
pub open spec fn enc_after_distro(v: EnvelopeModel) -> Seq<char> {
    "},\"ip_addr\":"@ + quoted(dotted_rep(v.source_address)) + enc_tail(v)
}

/// The end of the record: the concurrency hint and the closing brace.
pub open spec fn enc_tail(v: EnvelopeModel) -> Seq<char> {
    ",\"max_threads\":"@ + dec_rep(v.descriptor.concurrency_hint as nat) + seq!['}']
}

/// Escaping one appended character appends its escape.
proof fn lemma_escape_push(s: Seq<char>, c: char)
    ensures
        escape(s.push(c)) == escape(s) + escape_char(c),
    decreases s.len(),
{
    if s.len() == 0 {
        assert(s.push(c).drop_first() =~= Seq::<char>::empty());
        assert(s.push(c).first() == c);
        assert(escape(Seq::<char>::empty()) =~= Seq::<char>::empty());
        assert(escape(s.push(c)) == escape_char(c) + escape(Seq::<char>::empty()));
        assert(escape(s.push(c)) =~= escape_char(c));
        assert(escape(s) + escape_char(c) =~= escape_char(c));
    } else {
        assert(s.push(c).first() == s.first());
        assert(s.push(c).drop_first() =~= s.drop_first().push(c));
        lemma_escape_push(s.drop_first(), c);
        assert(escape(s.push(c)) == escape_char(s.first()) + (escape(s.drop_first())
            + escape_char(c)));
        assert(escape_char(s.first()) + (escape(s.drop_first()) + escape_char(c)) =~= (escape_char(
            s.first(),
        ) + escape(s.drop_first())) + escape_char(c));
    }
}

/// A text without quotes or backslashes escapes to itself.
proof fn lemma_escape_plain(s: Seq<char>)
    requires
        forall|i: int| 0 <= i < s.len() ==> s[i] != '"' && s[i] != '\\',
    ensures
        escape(s) == s,
    decreases s.len(),
{
    if s.len() > 0 {
        assert(forall|i: int|
            0 <= i < s.drop_first().len() ==> s.drop_first()[i] == s[i + 1]);
        lemma_escape_plain(s.drop_first());
        assert(escape_char(s.first()) == seq![s.first()]);
        assert(seq![s.first()] + s.drop_first() =~= s);
    }
}

/// No character of a dotted-decimal address needs escaping.
proof fn lemma_dotted_plain(a: Ipv4Address)
    ensures
        escape(dotted_rep(a)) == dotted_rep(a),
{
    lemma_dec_rep_digits(a.o0 as nat);
    lemma_dec_rep_digits(a.o1 as nat);
    lemma_dec_rep_digits(a.o2 as nat);
    lemma_dec_rep_digits(a.o3 as nat);
    assert(forall|i: int|
        0 <= i < dotted_rep(a).len() ==> dotted_rep(a)[i] != '"' && dotted_rep(a)[i] != '\\') by {
        assert(forall|c: char| is_dec_digit(c) ==> c != '"' && c != '\\');
    }
    lemma_escape_plain(dotted_rep(a));
}

/// Appends the JSON string form of `s`: quoted, quote and backslash
/// escaped.
fn push_quoted(out: &mut String, s: &String)
    ensures
        final(out)@ == old(out)@ + quoted(s@),
{
    out.push('"');
    let n = s.as_str().unicode_len();
    let mut i: usize = 0;
    while i < n
        invariant
            i <= n,
            n == s@.len(),
            out@ == old(out)@ + seq!['"'] + escape(s@.take(i as int)),
        decreases n - i,
    {
        let c = s.as_str().get_char(i);
        if c == '"' || c == '\\' {
            out.push('\\');
        }
        out.push(c);
        proof {
            lemma_escape_push(s@.take(i as int), c);
            assert(s@.take(i as int).push(c) =~= s@.take(i + 1));
            assert(out@ =~= old(out)@ + seq!['"'] + escape(s@.take(i + 1)));
        }
        i += 1;
    }
    out.push('"');
    proof {
        assert(s@.take(n as int) =~= s@);
        assert(out@ =~= old(out)@ + quoted(s@));
    }
}

/// Serializes an envelope to its wire payload text; the result is exactly
/// the canonical record of [`spec_encode`].
#[verifier::rlimit(100)]
pub fn encode(e: &Envelope) -> (s: String)
    ensures
        s@ == spec_encode(e@),
{
    let mut out = String::new();
    out.append("{\"identifier\":");
    push_quoted(&mut out, &e.protocol_tag);
    out.append(",\"device_info\":{\"real_name\":");
    push_quoted(&mut out, &e.descriptor.display_name);
    out.append(",\"user_name\":");
    push_quoted(&mut out, &e.descriptor.user_name);
    out.append(",\"device_name\":");
    push_quoted(&mut out, &e.descriptor.host_name);
    out.append(",\"platform\":");
    push_quoted(&mut out, &e.descriptor.platform);
    out.append(",\"distro\":");
    push_quoted(&mut out, &e.descriptor.distro);
    out.append("},\"ip_addr\":\"");
    push_dotted(&mut out, e.source_address);
    out.append("\",\"max_threads\":");
    push_decimal(&mut out, e.descriptor.concurrency_hint as u64);
    out.append("}");
    proof {
        lemma_dotted_plain(e.source_address);
        assert("}"@ =~= seq!['}']) by {
            reveal_strlit("}");
        }
        assert(seq!['"'] + dotted_rep(e.source_address) + (seq!['"']
            + ",\"max_threads\":"@) =~= quoted(dotted_rep(e.source_address))
            + ",\"max_threads\":"@);
        assert("\",\"max_threads\":"@ =~= seq!['"'] + ",\"max_threads\":"@) by {
            reveal_strlit("\",\"max_threads\":");
            reveal_strlit(",\"max_threads\":");
            assert("\",\"max_threads\":"@ =~= seq!['"'] + ",\"max_threads\":"@);
        }
        assert("},\"ip_addr\":\""@ =~= "},\"ip_addr\":"@ + seq!['"']) by {
            reveal_strlit("},\"ip_addr\":\"");
            reveal_strlit("},\"ip_addr\":");
            assert("},\"ip_addr\":\""@ =~= "},\"ip_addr\":"@ + seq!['"']);
        }
        assert(out@ =~= spec_encode(e@));
    }
    out
}

/// Parses the body of a JSON string, after its opening quote: the content
/// and how many characters are consumed, closing quote included.
pub open spec fn parse_string_body(s: Seq<char>) -> Option<(Seq<char>, nat)>
    decreases s.len(),
{
    if s.len() == 0 {
        None
    } else if s.first() == '"' {
        Some((Seq::empty(), 1 as nat))
    } else if s.first() == '\\' {
        if s.len() >= 2 && (s[1] == '"' || s[1] == '\\') {
            match parse_string_body(s.skip(2)) {
                Some(p) => Some((seq![s[1]] + p.0, (p.1 + 2) as nat)),
                None => None,
            }
        } else {
            None
        }
    } else {
        match parse_string_body(s.skip(1)) {
            Some(p) => Some((seq![s.first()] + p.0, (p.1 + 1) as nat)),
            None => None,
        }
    }
}

/// Parses a quoted JSON string at the head of `s`: its content, and how
/// many characters are consumed, both quotes included.
pub open spec fn parse_quoted(s: Seq<char>) -> Option<(Seq<char>, nat)> {
    if s.len() >= 1 && s.first() == '"' {
        match parse_string_body(s.skip(1)) {
            Some(p) => Some((p.0, (p.1 + 1) as nat)),
            None => None,
        }
    } else {
        None
    }
}

/// Parses a fixed label followed by a quoted string: the content, and the
/// consumed length including the label.
pub open spec fn parse_labeled(s: Seq<char>, label: Seq<char>) -> Option<(Seq<char>, nat)> {
    if label.is_prefix_of(s) {
        match parse_quoted(s.skip(label.len() as int)) {
            Some(p) => Some((p.0, (label.len() + p.1) as nat)),
            None => None,
        }
    } else {
        None
    }
}

/// Parses dotted-decimal address text; the whole of `s` must be the
/// address, each octet at most 255.
pub open spec fn parse_dotted(s: Seq<char>) -> Option<Ipv4Address> {
    let k0 = digit_prefix_len(s);
    let v0 = number_val(s);
    let s1 = s.skip(k0 as int);
    if k0 == 0 || v0 > 255 || s1.len() == 0 || s1.first() != '.' {
        None
    } else {
        let t1 = s1.skip(1);
        let k1 = digit_prefix_len(t1);
        let v1 = number_val(t1);
        let s2 = t1.skip(k1 as int);
        if k1 == 0 || v1 > 255 || s2.len() == 0 || s2.first() != '.' {
            None
        } else {
            let t2 = s2.skip(1);
            let k2 = digit_prefix_len(t2);
            let v2 = number_val(t2);
            let s3 = t2.skip(k2 as int);
            if k2 == 0 || v2 > 255 || s3.len() == 0 || s3.first() != '.' {
                None
            } else {
                let t3 = s3.skip(1);
                let k3 = digit_prefix_len(t3);
                let v3 = number_val(t3);
                if k3 == 0 || v3 > 255 || t3.skip(k3 as int).len() != 0 {
                    None
                } else {
                    Some(
                        Ipv4Address {
                            o0: v0 as u8,
                            o1: v1 as u8,
                            o2: v2 as u8,
                            o3: v3 as u8,
                        },
                    )
                }
            }
        }
    }
}

/// What a payload means: the envelope the canonical record carries, or
/// nothing when the text is not such a record.
pub open spec fn spec_decode(s: Seq<char>) -> Option<EnvelopeModel> {
    match parse_labeled(s, "{\"identifier\":"@) {
        None => None,
        Some(f1) => match parse_labeled(
            s.skip(f1.1 as int),
            ",\"device_info\":{\"real_name\":"@,
        ) {
            None => None,
            Some(f2) => match parse_labeled(s.skip((f1.1 + f2.1) as int), ",\"user_name\":"@) {
                None => None,
                Some(f3) => match parse_labeled(
                    s.skip((f1.1 + f2.1 + f3.1) as int),
                    ",\"device_name\":"@,
                ) {
                    None => None,
                    Some(f4) => match parse_labeled(
                        s.skip((f1.1 + f2.1 + f3.1 + f4.1) as int),
                        ",\"platform\":"@,
                    ) {
                        None => None,
                        Some(f5) => match parse_labeled(
                            s.skip((f1.1 + f2.1 + f3.1 + f4.1 + f5.1) as int),
                            ",\"distro\":"@,
                        ) {
                            None => None,
                            Some(f6) => match parse_labeled(
                                s.skip((f1.1 + f2.1 + f3.1 + f4.1 + f5.1 + f6.1) as int),
                                "},\"ip_addr\":"@,
                            ) {
                                None => None,
                                Some(f7) => match parse_dotted(f7.0) {
                                    None => None,
                                    Some(addr) => spec_decode_tail(
                                        s.skip(
                                            (f1.1 + f2.1 + f3.1 + f4.1 + f5.1 + f6.1 + f7.1) as int,
                                        ),
                                        f1.0,
                                        f2.0,
                                        f3.0,
                                        f4.0,
                                        f5.0,
                                        f6.0,
                                        addr,
                                    ),
                                },
                            },
                        },
                    },
                },
            },
        },
    }
}

/// The tail of the record: the concurrency hint and the closing brace.
pub open spec fn spec_decode_tail(
    s: Seq<char>,
    tag: Seq<char>,
    display_name: Seq<char>,
    user_name: Seq<char>,
    host_name: Seq<char>,
    platform: Seq<char>,
    distro: Seq<char>,
    addr: Ipv4Address,
) -> Option<EnvelopeModel> {
    let label = ",\"max_threads\":"@;
    if !label.is_prefix_of(s) {
        None
    } else {
        let t = s.skip(label.len() as int);
        let k = digit_prefix_len(t);
        let v = number_val(t);
        let rest = t.skip(k as int);
        if k == 0 || v < 1 || v > usize::MAX as nat || rest.len() != 1 || rest.first() != '}' {
            None
        } else {
            Some(
                EnvelopeModel {
                    protocol_tag: tag,
                    descriptor: DescriptorModel {
                        display_name,
                        user_name,
                        host_name,
                        platform,
                        distro,
                        concurrency_hint: v as usize,
                    },
                    source_address: addr,
                },
            )
        }
    }
}

/// An escaped body followed by its closing quote parses back to the
/// content it encodes.
proof fn lemma_body_round_trip(t: Seq<char>, rest: Seq<char>)
    ensures
        parse_string_body(escape(t) + seq!['"'] + rest) == Some(
            (t, (escape(t).len() + 1) as nat),
        ),
    decreases t.len(),
{
    let s = escape(t) + seq!['"'] + rest;
    if t.len() == 0 {
        assert(escape(t) =~= Seq::<char>::empty());
        assert(s =~= seq!['"'] + rest);
        assert(s.first() == '"');
        assert(parse_string_body(s) == Some((Seq::<char>::empty(), 1 as nat)));
        assert(Seq::<char>::empty() =~= t);
    } else {
        let c = t.first();
        let t2 = t.drop_first();
        assert(escape(t) == escape_char(c) + escape(t2));
        lemma_body_round_trip(t2, rest);
        if c == '"' || c == '\\' {
            assert(escape_char(c) == seq!['\\', c]);
            assert(s.len() >= 2);
            assert(s.first() == '\\');
            assert(s[1] == c);
            assert(s.skip(2) =~= escape(t2) + seq!['"'] + rest);
            let p = parse_string_body(s.skip(2)).unwrap();
            assert(p.0 == t2);
            assert(parse_string_body(s) == Some((seq![c] + t2, (p.1 + 2) as nat)));
            assert(seq![c] + t2 =~= t);
            assert(escape(t).len() == escape(t2).len() + 2);
        } else {
            assert(escape_char(c) == seq![c]);
            assert(s.first() == c);
            assert(s.skip(1) =~= escape(t2) + seq!['"'] + rest);
            let p = parse_string_body(s.skip(1)).unwrap();
            assert(p.0 == t2);
            assert(parse_string_body(s) == Some((seq![c] + t2, (p.1 + 1) as nat)));
            assert(seq![c] + t2 =~= t);
            assert(escape(t).len() == escape(t2).len() + 1);
        }
    }
}

/// A quoted string followed by anything parses back to its content.
proof fn lemma_quoted_round_trip(t: Seq<char>, rest: Seq<char>)
    ensures
        parse_quoted(quoted(t) + rest) == Some((t, (escape(t).len() + 2) as nat)),
{
    let s = quoted(t) + rest;
    assert(s.first() == '"');
    assert(s.skip(1) =~= escape(t) + seq!['"'] + rest);
    lemma_body_round_trip(t, rest);
}

/// A label, a quoted string and a remainder parse back to the string's
/// content, consuming through the closing quote.
proof fn lemma_labeled_round_trip(label: Seq<char>, t: Seq<char>, rest: Seq<char>)
    ensures
        parse_labeled(label + quoted(t) + rest, label) == Some(
            (t, (label.len() + escape(t).len() + 2) as nat),
        ),
        (label + quoted(t) + rest).skip((label.len() + escape(t).len() + 2) as int) == rest,
{
    let s = label + quoted(t) + rest;
    assert(label.is_prefix_of(s)) by {
        assert(s.subrange(0, label.len() as int) =~= label);
    }
    assert(s.skip(label.len() as int) =~= quoted(t) + rest);
    lemma_quoted_round_trip(t, rest);
    assert(s.skip((label.len() + escape(t).len() + 2) as int) =~= rest);
}

/// The dotted-decimal text of an address parses back to the address.
#[verifier::rlimit(60)]
proof fn lemma_dotted_round_trip(a: Ipv4Address)
    ensures
        parse_dotted(dotted_rep(a)) == Some(a),
{
    let s = dotted_rep(a);
    let d0 = dec_rep(a.o0 as nat);
    let d1 = dec_rep(a.o1 as nat);
    let d2 = dec_rep(a.o2 as nat);
    let d3 = dec_rep(a.o3 as nat);
    let r0 = seq!['.'] + d1 + seq!['.'] + d2 + seq!['.'] + d3;
    assert(s =~= d0 + r0);
    lemma_number_round_trip(a.o0 as nat, r0);
    assert(s.skip(digit_prefix_len(s) as int) == r0);
    assert(r0.first() == '.');
    let t1 = r0.skip(1);
    let r1 = seq!['.'] + d2 + seq!['.'] + d3;
    assert(t1 =~= d1 + r1);
    lemma_number_round_trip(a.o1 as nat, r1);
    assert(t1.skip(digit_prefix_len(t1) as int) == r1);
    assert(r1.first() == '.');
    let t2 = r1.skip(1);
    let r2 = seq!['.'] + d3;
    assert(t2 =~= d2 + r2);
    lemma_number_round_trip(a.o2 as nat, r2);
    assert(t2.skip(digit_prefix_len(t2) as int) == r2);
    assert(r2.first() == '.');
    let t3 = r2.skip(1);
    assert(t3 =~= d3 + Seq::<char>::empty());
    lemma_number_round_trip(a.o3 as nat, Seq::<char>::empty());
    assert(t3.skip(digit_prefix_len(t3) as int) == Seq::<char>::empty());
}

/// The length one labeled, quoted field occupies on the wire.
pub open spec fn enc_cut(label: Seq<char>, t: Seq<char>) -> nat {
    (label.len() + escape(t).len() + 2) as nat
}

/// Each piece of the canonical record parses back to the field it
/// carries, and consuming it leaves exactly the rest of the record.
proof fn lemma_encode_parts(v: EnvelopeModel)
    ensures
        parse_labeled(spec_encode(v), "{\"identifier\":"@) == Some(
            (v.protocol_tag, enc_cut("{\"identifier\":"@, v.protocol_tag)),
        ),
        spec_encode(v).skip(enc_cut("{\"identifier\":"@, v.protocol_tag) as int) == enc_after_tag(
            v,
        ),
        parse_labeled(enc_after_tag(v), ",\"device_info\":{\"real_name\":"@) == Some(
            (
                v.descriptor.display_name,
                enc_cut(",\"device_info\":{\"real_name\":"@, v.descriptor.display_name),
            ),
        ),
        enc_after_tag(v).skip(
            enc_cut(",\"device_info\":{\"real_name\":"@, v.descriptor.display_name) as int,
        ) == enc_after_display(v),
        parse_labeled(enc_after_display(v), ",\"user_name\":"@) == Some(
            (v.descriptor.user_name, enc_cut(",\"user_name\":"@, v.descriptor.user_name)),
        ),
        enc_after_display(v).skip(enc_cut(",\"user_name\":"@, v.descriptor.user_name) as int)
            == enc_after_user(v),
        parse_labeled(enc_after_user(v), ",\"device_name\":"@) == Some(
            (v.descriptor.host_name, enc_cut(",\"device_name\":"@, v.descriptor.host_name)),
        ),
        enc_after_user(v).skip(enc_cut(",\"device_name\":"@, v.descriptor.host_name) as int)
            == enc_after_host(v),
        parse_labeled(enc_after_host(v), ",\"platform\":"@) == Some(
            (v.descriptor.platform, enc_cut(",\"platform\":"@, v.descriptor.platform)),
        ),
        enc_after_host(v).skip(enc_cut(",\"platform\":"@, v.descriptor.platform) as int)
            == enc_after_platform(v),
        parse_labeled(enc_after_platform(v), ",\"distro\":"@) == Some(
            (v.descriptor.distro, enc_cut(",\"distro\":"@, v.descriptor.distro)),
        ),
        enc_after_platform(v).skip(enc_cut(",\"distro\":"@, v.descriptor.distro) as int)
            == enc_after_distro(v),
        parse_labeled(enc_after_distro(v), "},\"ip_addr\":"@) == Some(
            (
                dotted_rep(v.source_address),
                enc_cut("},\"ip_addr\":"@, dotted_rep(v.source_address)),
            ),
        ),
        enc_after_distro(v).skip(
            enc_cut("},\"ip_addr\":"@, dotted_rep(v.source_address)) as int,
        ) == enc_tail(v),
        parse_dotted(dotted_rep(v.source_address)) == Some(v.source_address),
{
    lemma_labeled_round_trip("{\"identifier\":"@, v.protocol_tag, enc_after_tag(v));
    lemma_labeled_round_trip(
        ",\"device_info\":{\"real_name\":"@,
        v.descriptor.display_name,
        enc_after_display(v),
    );
    lemma_labeled_round_trip(",\"user_name\":"@, v.descriptor.user_name, enc_after_user(v));
    lemma_labeled_round_trip(",\"device_name\":"@, v.descriptor.host_name, enc_after_host(v));
    lemma_labeled_round_trip(",\"platform\":"@, v.descriptor.platform, enc_after_platform(v));
    lemma_labeled_round_trip(",\"distro\":"@, v.descriptor.distro, enc_after_distro(v));
    lemma_labeled_round_trip("},\"ip_addr\":"@, dotted_rep(v.source_address), enc_tail(v));
    lemma_dotted_round_trip(v.source_address);
}

/// The tail of the record parses back to the concurrency hint.
proof fn lemma_encode_tail(v: EnvelopeModel)
    requires
        v.descriptor.concurrency_hint >= 1,
    ensures
        spec_decode_tail(
            enc_tail(v),
            v.protocol_tag,
            v.descriptor.display_name,
            v.descriptor.user_name,
            v.descriptor.host_name,
            v.descriptor.platform,
            v.descriptor.distro,
            v.source_address,
        ) == Some(v),
{
    let l8 = ",\"max_threads\":"@;
    let num = dec_rep(v.descriptor.concurrency_hint as nat);
    let rest7 = enc_tail(v);
    assert(l8.is_prefix_of(rest7)) by {
        assert(rest7.subrange(0, l8.len() as int) =~= l8);
    }
    assert(rest7.skip(l8.len() as int) =~= num + seq!['}']);
    lemma_number_round_trip(v.descriptor.concurrency_hint as nat, seq!['}']);
    let t = rest7.skip(l8.len() as int);
    assert(t.skip(digit_prefix_len(t) as int) == seq!['}']);
    assert(number_val(t) == v.descriptor.concurrency_hint as nat);
    let m = spec_decode_tail(
        enc_tail(v),
        v.protocol_tag,
        v.descriptor.display_name,
        v.descriptor.user_name,
        v.descriptor.host_name,
        v.descriptor.platform,
        v.descriptor.distro,
        v.source_address,
    ).unwrap();
    assert(m.protocol_tag == v.protocol_tag);
    assert(m.descriptor == v.descriptor);
    assert(m.source_address == v.source_address);
}

/// Encoding an envelope and decoding the text gives the envelope back:
/// the codec loses nothing, whatever the descriptor strings hold.
#[verifier::rlimit(100)]
pub proof fn lemma_round_trip(v: EnvelopeModel)
    requires
        v.descriptor.concurrency_hint >= 1,
    ensures
        spec_decode(spec_encode(v)) == Some(v),
{
    lemma_encode_parts(v);
    lemma_encode_tail(v);
    let s = spec_encode(v);
    let c1 = enc_cut("{\"identifier\":"@, v.protocol_tag);
    let c2 = enc_cut(",\"device_info\":{\"real_name\":"@, v.descriptor.display_name);
    let c3 = enc_cut(",\"user_name\":"@, v.descriptor.user_name);
    let c4 = enc_cut(",\"device_name\":"@, v.descriptor.host_name);
    let c5 = enc_cut(",\"platform\":"@, v.descriptor.platform);
    let c6 = enc_cut(",\"distro\":"@, v.descriptor.distro);
    let c7 = enc_cut("},\"ip_addr\":"@, dotted_rep(v.source_address));
    vstd::seq_lib::lemma_seq_skip_of_skip(s, c1 as int, c2 as int);
    assert(s.skip((c1 + c2) as int) == enc_after_display(v));
    vstd::seq_lib::lemma_seq_skip_of_skip(s, (c1 + c2) as int, c3 as int);
    assert(s.skip((c1 + c2 + c3) as int) == enc_after_user(v));
    vstd::seq_lib::lemma_seq_skip_of_skip(s, (c1 + c2 + c3) as int, c4 as int);
    assert(s.skip((c1 + c2 + c3 + c4) as int) == enc_after_host(v));
    vstd::seq_lib::lemma_seq_skip_of_skip(s, (c1 + c2 + c3 + c4) as int, c5 as int);
    assert(s.skip((c1 + c2 + c3 + c4 + c5) as int) == enc_after_platform(v));
    vstd::seq_lib::lemma_seq_skip_of_skip(s, (c1 + c2 + c3 + c4 + c5) as int, c6 as int);
    assert(s.skip((c1 + c2 + c3 + c4 + c5 + c6) as int) == enc_after_distro(v));
    vstd::seq_lib::lemma_seq_skip_of_skip(s, (c1 + c2 + c3 + c4 + c5 + c6) as int, c7 as int);
    assert(s.skip((c1 + c2 + c3 + c4 + c5 + c6 + c7) as int) == enc_tail(v));
    assert(spec_decode(s) == Some(v));
}

/// Whether the character at `i` of `s` is a decimal digit.
fn digit_at(s: &str, i: usize) -> (b: bool)
    requires
        i < s@.len(),
    ensures
        b == is_dec_digit(s@[i as int]),
{
    let c = s.get_char(i);
    '0' <= c && c <= '9'
}

/// Checks that `lit` stands at `pos` of `s`; returns the position after.
fn expect_lit(s: &str, pos: usize, lit: &str) -> (r: Option<usize>)
    requires
        pos <= s@.len(),
    ensures
        match r {
            Some(p) => lit@.is_prefix_of(s@.skip(pos as int)) && p as int == pos + lit@.len()
                && p <= s@.len(),
            None => !lit@.is_prefix_of(s@.skip(pos as int)),
        },
{
    let n = lit.unicode_len();
    let sn = s.unicode_len();
    if n > sn - pos {
        return None;
    }
    let mut i: usize = 0;
    while i < n
        invariant
            i <= n,
            n == lit@.len(),
            sn == s@.len(),
            pos + n <= sn,
            forall|j: int| 0 <= j < i ==> s@[pos + j] == lit@[j],
        decreases n - i,
    {
        if s.get_char(pos + i) != lit.get_char(i) {
            proof {
                assert(s@.skip(pos as int)[i as int] == s@[pos + i]);
            }
            return None;
        }
        i += 1;
    }
    proof {
        assert(lit@ =~= s@.skip(pos as int).subrange(0, n as int));
    }
    Some(pos + n)
}

/// Scans one JSON string body at `pos`, appending the content to `out`;
/// returns the position after the closing quote.
fn parse_body_exec(s: &str, pos: usize, out: &mut String) -> (r: Option<usize>)
    requires
        pos <= s@.len(),
    ensures
        match r {
            Some(p) => {
                &&& parse_string_body(s@.skip(pos as int)) is Some
                &&& final(out)@ == old(out)@ + parse_string_body(s@.skip(pos as int)).unwrap().0
                &&& p as int == pos + parse_string_body(s@.skip(pos as int)).unwrap().1
                &&& pos < p <= s@.len()
            },
            None => parse_string_body(s@.skip(pos as int)) is None,
        },
    decreases s@.len() - pos,
{
    let n = s.unicode_len();
    if pos == n {
        return None;
    }
    let c = s.get_char(pos);
    proof {
        assert(s@.skip(pos as int).first() == s@[pos as int]);
    }
    if c == '"' {
        proof {
            assert(out@ =~= out@ + Seq::<char>::empty());
        }
        return Some(pos + 1);
    }
    if c == '\\' {
        if pos + 1 < n {
            let c2 = s.get_char(pos + 1);
            proof {
                assert(s@.skip(pos as int)[1] == s@[pos + 1]);
                assert(s@.skip(pos as int).skip(2) =~= s@.skip(pos + 2));
            }
            if c2 == '"' || c2 == '\\' {
                out.push(c2);
                let r = parse_body_exec(s, pos + 2, out);
                match r {
                    Some(p) => {
                        proof {
                            let t2 = parse_string_body(s@.skip(pos + 2)).unwrap().0;
                            assert(out@ =~= old(out)@ + (seq![c2] + t2));
                        }
                        Some(p)
                    },
                    None => None,
                }
            } else {
                None
            }
        } else {
            proof {
                assert(s@.skip(pos as int).len() < 2);
            }
            None
        }
    } else {
        out.push(c);
        proof {
            assert(s@.skip(pos as int).skip(1) =~= s@.skip(pos + 1));
        }
        let r = parse_body_exec(s, pos + 1, out);
        match r {
            Some(p) => {
                proof {
                    let t2 = parse_string_body(s@.skip(pos + 1)).unwrap().0;
                    assert(out@ =~= old(out)@ + (seq![c] + t2));
                }
                Some(p)
            },
            None => None,
        }
    }
}

/// Parses a quoted JSON string at `pos`: its content and the position
/// after the closing quote.
fn parse_quoted_exec(s: &str, pos: usize) -> (r: Option<(String, usize)>)
    requires
        pos <= s@.len(),
    ensures
        match r {
            Some(cp) => {
                &&& parse_quoted(s@.skip(pos as int)) is Some
                &&& cp.0@ == parse_quoted(s@.skip(pos as int)).unwrap().0
                &&& cp.1 as int == pos + parse_quoted(s@.skip(pos as int)).unwrap().1
                &&& pos < cp.1 <= s@.len()
            },
            None => parse_quoted(s@.skip(pos as int)) is None,
        },
{
    let n = s.unicode_len();
    if pos == n {
        return None;
    }
    proof {
        assert(s@.skip(pos as int).first() == s@[pos as int]);
        assert(s@.skip(pos as int).skip(1) =~= s@.skip(pos + 1));
    }
    if s.get_char(pos) != '"' {
        return None;
    }
    let mut content = String::new();
    let r = parse_body_exec(s, pos + 1, &mut content);
    match r {
        Some(p) => {
            proof {
                assert(content@ =~= Seq::<char>::empty()
                    + parse_string_body(s@.skip(pos + 1)).unwrap().0);
            }
            Some((content, p))
        },
        None => None,
    }
}

/// Parses the decimal number at `pos`: its value and the position after
/// its digits; nothing when no digit stands there or the value does not
/// fit a `usize`.
fn parse_number_exec(s: &str, pos: usize) -> (r: Option<(usize, usize)>)
    requires
        pos <= s@.len(),
    ensures
        match r {
            Some(vp) => {
                &&& digit_prefix_len(s@.skip(pos as int)) >= 1
                &&& vp.0 as nat == number_val(s@.skip(pos as int))
                &&& vp.1 as int == pos + digit_prefix_len(s@.skip(pos as int))
                &&& pos < vp.1 <= s@.len()
            },
            None => digit_prefix_len(s@.skip(pos as int)) == 0 || number_val(s@.skip(pos as int))
                > usize::MAX as nat,
        },
{
    let n = s.unicode_len();
    let ghost tail = s@.skip(pos as int);
    let mut end = pos;
    while end < n && digit_at(s, end)
        invariant
            pos <= end <= n,
            n == s@.len(),
            forall|j: int| pos <= j < end ==> is_dec_digit(#[trigger] s@[j]),
            digit_prefix_len(s@.skip(pos as int)) == (end - pos) + digit_prefix_len(
                s@.skip(end as int),
            ),
        decreases n - end,
    {
        proof {
            assert(s@.skip(end as int).first() == s@[end as int]);
            assert(s@.skip(end as int).drop_first() =~= s@.skip(end + 1));
        }
        end += 1;
    }
    proof {
        if end < n {
            assert(s@.skip(end as int).first() == s@[end as int]);
        }
        assert(digit_prefix_len(s@.skip(end as int)) == 0);
        assert(digit_prefix_len(tail) == end - pos);
    }
    if end == pos {
        return None;
    }
    let ghost digits = s@.subrange(pos as int, end as int);
    proof {
        assert(tail.take((end - pos) as int) =~= digits);
        assert(number_val(tail) == digits_val(digits));
        assert(forall|j: int| 0 <= j < digits.len() ==> is_dec_digit(#[trigger] digits[j]));
    }
    let mut v: usize = 0;
    let mut i: usize = pos;
    while i < end
        invariant
            pos <= i <= end <= n,
            n == s@.len(),
            forall|j: int| pos <= j < end ==> is_dec_digit(#[trigger] s@[j]),
            digits == s@.subrange(pos as int, end as int),
            tail == s@.skip(pos as int),
            forall|j: int| 0 <= j < digits.len() ==> is_dec_digit(#[trigger] digits[j]),
            number_val(tail) == digits_val(digits),
            digit_prefix_len(tail) == end - pos,
            v as nat == digits_val(s@.subrange(pos as int, i as int)),
        decreases end - i,
    {
        let c = s.get_char(i);
        proof {
            assert(is_dec_digit(s@[i as int]));
        }
        let d = (c as u32 - '0' as u32) as usize;
        proof {
            assert(d as int == digit_val(c));
            assert(d < 10);
            assert(s@.subrange(pos as int, i + 1).drop_last() =~= s@.subrange(
                pos as int,
                i as int,
            ));
            assert(s@.subrange(pos as int, i + 1).last() == s@[i as int]);
            assert(digits_val(s@.subrange(pos as int, i + 1)) == (v as nat) * 10 + d as nat);
        }
        let w = v as u128 * 10 + d as u128;
        if w > usize::MAX as u128 {
            proof {
                lemma_digits_val_prefix(digits, i + 1 - pos);
                assert(digits.take(i + 1 - pos) =~= s@.subrange(pos as int, i + 1));
                assert(digits_val(digits) > usize::MAX as nat);
                assert(number_val(s@.skip(pos as int)) > usize::MAX as nat);
            }
            return None;
        }
        v = w as usize;
        i += 1;
    }
    proof {
        assert(s@.subrange(pos as int, end as int) == digits);
    }
    Some((v, end))
}

/// Parses a fixed label and the quoted string after it, at `pos`.
fn parse_labeled_exec(s: &str, pos: usize, label: &str) -> (r: Option<(String, usize)>)
    requires
        pos <= s@.len(),
    ensures
        match r {
            Some(cp) => {
                &&& parse_labeled(s@.skip(pos as int), label@) is Some
                &&& cp.0@ == parse_labeled(s@.skip(pos as int), label@).unwrap().0
                &&& cp.1 as int == pos + parse_labeled(s@.skip(pos as int), label@).unwrap().1
                &&& pos <= cp.1 <= s@.len()
            },
            None => parse_labeled(s@.skip(pos as int), label@) is None,
        },
{
    let q = match expect_lit(s, pos, label) {
        Some(q) => q,
        None => {
            return None;
        },
    };
    proof {
        vstd::seq_lib::lemma_seq_skip_of_skip(s@, pos as int, label@.len() as int);
    }
    match parse_quoted_exec(s, q) {
        Some(cp) => Some(cp),
        None => None,
    }
}

/// Parses a dotted-decimal address out of `content`; the whole text must
/// be the address, each octet at most 255.
#[verifier::rlimit(60)]
fn parse_dotted_exec(content: &str) -> (r: Option<Ipv4Address>)
    ensures
        r == parse_dotted(content@),
{
    let n = content.unicode_len();
    proof {
        assert(content@.skip(0) =~= content@);
    }
    let (v0, p0) = match parse_number_exec(content, 0) {
        Some(vp) => vp,
        None => {
            return None;
        },
    };
    if v0 > 255 {
        return None;
    }
    if p0 == n {
        return None;
    }
    proof {
        assert(content@.skip(p0 as int).first() == content@[p0 as int]);
        vstd::seq_lib::lemma_seq_skip_of_skip(content@, p0 as int, 1);
    }
    if content.get_char(p0) != '.' {
        return None;
    }
    let (v1, p1) = match parse_number_exec(content, p0 + 1) {
        Some(vp) => vp,
        None => {
            return None;
        },
    };
    if v1 > 255 {
        return None;
    }
    if p1 == n {
        return None;
    }
    proof {
        vstd::seq_lib::lemma_seq_skip_of_skip(content@, (p0 + 1) as int, (p1 - (p0 + 1)) as int);
        assert(content@.skip(p1 as int).first() == content@[p1 as int]);
        vstd::seq_lib::lemma_seq_skip_of_skip(content@, p1 as int, 1);
    }
    if content.get_char(p1) != '.' {
        return None;
    }
    let (v2, p2) = match parse_number_exec(content, p1 + 1) {
        Some(vp) => vp,
        None => {
            return None;
        },
    };
    if v2 > 255 {
        return None;
    }
    if p2 == n {
        return None;
    }
    proof {
        vstd::seq_lib::lemma_seq_skip_of_skip(content@, (p1 + 1) as int, (p2 - (p1 + 1)) as int);
        assert(content@.skip(p2 as int).first() == content@[p2 as int]);
        vstd::seq_lib::lemma_seq_skip_of_skip(content@, p2 as int, 1);
    }
    if content.get_char(p2) != '.' {
        return None;
    }
    let (v3, p3) = match parse_number_exec(content, p2 + 1) {
        Some(vp) => vp,
        None => {
            return None;
        },
    };
    proof {
        vstd::seq_lib::lemma_seq_skip_of_skip(content@, (p2 + 1) as int, (p3 - (p2 + 1)) as int);
    }
    if v3 > 255 {
        return None;
    }
    if p3 != n {
        return None;
    }
    Some(Ipv4Address { o0: v0 as u8, o1: v1 as u8, o2: v2 as u8, o3: v3 as u8 })
}

/// Deserializes one payload text: the envelope the canonical record
/// carries, or a typed failure on any other text — exactly as
/// [`spec_decode`] says, so no payload can stop a listener.
#[verifier::rlimit(100)]
pub fn decode(payload: &str) -> (r: Result<Envelope, DecodeError>)
    ensures
        match r {
            Ok(e) => spec_decode(payload@) == Some(e@),
            Err(_) => spec_decode(payload@) is None,
        },
{
    proof {
        assert(payload@.skip(0) =~= payload@);
    }
    let (tag, p1) = match parse_labeled_exec(payload, 0, "{\"identifier\":") {
        Some(cp) => cp,
        None => {
            return Err(DecodeError);
        },
    };
    let (display_name, p2) = match parse_labeled_exec(
        payload,
        p1,
        ",\"device_info\":{\"real_name\":",
    ) {
        Some(cp) => cp,
        None => {
            return Err(DecodeError);
        },
    };
    let (user_name, p3) = match parse_labeled_exec(payload, p2, ",\"user_name\":") {
        Some(cp) => cp,
        None => {
            return Err(DecodeError);
        },
    };
    let (host_name, p4) = match parse_labeled_exec(payload, p3, ",\"device_name\":") {
        Some(cp) => cp,
        None => {
            return Err(DecodeError);
        },
    };
    let (platform, p5) = match parse_labeled_exec(payload, p4, ",\"platform\":") {
        Some(cp) => cp,
        None => {
            return Err(DecodeError);
        },
    };
    let (distro, p6) = match parse_labeled_exec(payload, p5, ",\"distro\":") {
        Some(cp) => cp,
        None => {
            return Err(DecodeError);
        },
    };
    let (ip_text, p7) = match parse_labeled_exec(payload, p6, "},\"ip_addr\":") {
        Some(cp) => cp,
        None => {
            return Err(DecodeError);
        },
    };
    let addr = match parse_dotted_exec(ip_text.as_str()) {
        Some(a) => a,
        None => {
            return Err(DecodeError);
        },
    };
    let p8 = match expect_lit(payload, p7, ",\"max_threads\":") {
        Some(p) => p,
        None => {
            return Err(DecodeError);
        },
    };
    proof {
        vstd::seq_lib::lemma_seq_skip_of_skip(
            payload@,
            p7 as int,
            ",\"max_threads\":"@.len() as int,
        );
    }
    let (hint, p9) = match parse_number_exec(payload, p8) {
        Some(vp) => vp,
        None => {
            return Err(DecodeError);
        },
    };
    proof {
        vstd::seq_lib::lemma_seq_skip_of_skip(
            payload@,
            p8 as int,
            digit_prefix_len(payload@.skip(p8 as int)) as int,
        );
    }
    if hint < 1 {
        return Err(DecodeError);
    }
    let n = payload.unicode_len();
    if p9 == n {
        return Err(DecodeError);
    }
    if p9 + 1 != n {
        return Err(DecodeError);
    }
    proof {
        assert(payload@.skip(p9 as int).len() == 1);
        assert(payload@.skip(p9 as int).first() == payload@[p9 as int]);
    }
    if payload.get_char(p9) != '}' {
        return Err(DecodeError);
    }
    let envelope = Envelope {
        protocol_tag: tag,
        descriptor: DeviceDescriptor {
            display_name,
            user_name,
            host_name,
            platform,
            distro,
            concurrency_hint: hint,
        },
        source_address: addr,
    };
    proof {
        assert(spec_decode(payload@) == Some(envelope@));
    }
    Ok(envelope)
}

} // verus!
