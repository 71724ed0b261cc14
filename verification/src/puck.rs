//! The claim puck's serial protocol: bay ids, `key=value` replies, mood and
//! command lines, and reading reply lines byte by byte.

use vstd::prelude::*;
use vstd::utf8::encode_utf8;
use crate::text::{
    ascii_lower, ascii_lower_char, chars_of, is_ascii_alnum, is_ascii_alnum_char, is_ws, is_ws_char,
    find_char, find_first, has_prefix, lemma_trim_id, seq_eq, slice_vec, utf8_len_is, lower_seq, starts_with, push_chars, split_ws, string_of, trim, trim_bounds, views, words,
};
use crate::trusted::{push_char, string_from_utf8_lossy, utf8_lossy};

verus! {

/// A serial port offered to the user.
pub struct SerialPortInfo {
    pub path: String,
    pub name: String,
}

/// What a finished claim reports.
pub struct ClaimPuckResult {
    pub device_id: String,
    pub bay_id: String,
    pub space_name: String,
    pub message: String,
}

/// The mood of one bay as ThermalTrace reports it.
pub struct BayMoodPayload {
    pub bay_id: String,
    pub mood: String,
    pub space_name: Option<String>,
    pub source: Option<String>,
}

/// The characters an optional string holds.
pub open spec fn opt_view(o: Option<String>) -> Option<Seq<char>> {
    match o {
        Some(s) => Some(s@),
        None => None,
    }
}

// ---------------------------------------------------------------- bay ids

/// Characters a bay id keeps as they are (up to case).
pub open spec fn bay_allowed(c: char) -> bool {
    is_ascii_alnum(c) || c == '_' || c == '.' || c == ':' || c == '-'
}

/// What one character of a raw bay id becomes: kept and lower-cased,
/// whitespace turned into `_`, anything else dropped.
pub open spec fn bay_map(c: char) -> Option<char> {
    if bay_allowed(c) {
        Some(ascii_lower(c))
    } else if is_ws(c) {
        Some('_')
    } else {
        None
    }
}

/// The mapped characters of `s`, in order.
pub open spec fn bay_chars(s: Seq<char>) -> Seq<char>
    decreases s.len(),
{
    if s.len() == 0 {
        Seq::empty()
    } else {
        let p = bay_chars(s.drop_last());
        match bay_map(s.last()) {
            Some(c) => p.push(c),
            None => p,
        }
    }
}

/// The normalized form of a raw bay id: trimmed, mapped, at most 32 characters.
pub open spec fn normalized_bay(raw: Seq<char>) -> Seq<char> {
    let m = bay_chars(trim(raw));
    if m.len() <= 32 {
        m
    } else {
        m.take(32)
    }
}

/// A character that can stand in a normalized bay id.
pub open spec fn bay_out_char(c: char) -> bool {
    bay_allowed(c) && !('A' <= c <= 'Z')
}

proof fn lemma_bay_chars_out(s: Seq<char>)
    ensures
        forall|i: int| 0 <= i < bay_chars(s).len() ==> bay_out_char(#[trigger] bay_chars(s)[i]),
    decreases s.len(),
{
    if s.len() > 0 {
        lemma_bay_chars_out(s.drop_last());
        let c = s.last();
        if bay_allowed(c) {
            lemma_lower_out(c);
        }
        let p = bay_chars(s.drop_last());
        assert forall|i: int| 0 <= i < bay_chars(s).len() implies bay_out_char(
            #[trigger] bay_chars(s)[i],
        ) by {
            if i < p.len() {
                assert(bay_chars(s)[i] == p[i]);
            }
        }
    }
}

proof fn lemma_lower_out(c: char)
    requires
        bay_allowed(c),
    ensures
        bay_out_char(ascii_lower(c)),
{
    if 'A' <= c <= 'Z' {
        let u = (c as u32) + 32;
        assert(97 <= u <= 122);
        assert(('a' as u32) == 97 && ('z' as u32) == 122);
        assert((u as char) as u32 == u);
    }
}

proof fn lemma_bay_chars_prefix(s: Seq<char>, k: int)
    requires
        0 <= k <= s.len(),
    ensures
        bay_chars(s.take(k)).len() <= bay_chars(s).len(),
        bay_chars(s).take(bay_chars(s.take(k)).len() as int) == bay_chars(s.take(k)),
    decreases s.len(),
{
    if k == s.len() {
        assert(s.take(k) =~= s);
        assert(bay_chars(s).take(bay_chars(s).len() as int) =~= bay_chars(s));
    } else {
        let d = s.drop_last();
        assert(s.take(k) =~= d.take(k));
        lemma_bay_chars_prefix(d, k);
        let p = bay_chars(d);
        let q = bay_chars(s.take(k));
        assert(bay_chars(s).take(q.len() as int) =~= p.take(q.len() as int));
    }
}

proof fn lemma_bay_chars_fixed(s: Seq<char>)
    requires
        forall|i: int| 0 <= i < s.len() ==> bay_out_char(#[trigger] s[i]),
    ensures
        bay_chars(s) == s,
    decreases s.len(),
{
    if s.len() > 0 {
        lemma_bay_chars_fixed(s.drop_last());
        assert(bay_chars(s) =~= s);
    }
}

fn bay_char_ok(c: char) -> (b: bool)
    ensures
        b == bay_allowed(c),
{
    is_ascii_alnum_char(c) || c == '_' || c == '.' || c == ':' || c == '-'
}

/// Normalizes a bay id typed by the user: surrounding whitespace dropped,
/// letters lower-cased, inner whitespace turned into `_`, characters other than
/// ASCII letters, digits and `_ . : -` dropped, and at most 32 characters kept.
pub fn normalize_bay_id(raw: &str) -> (r: Result<String, String>)
    ensures
        match r {
            Ok(s) => normalized_bay(raw@).len() > 0 && s@ == normalized_bay(raw@),
            Err(e) => normalized_bay(raw@).len() == 0 && e@ == "bay id is empty"@,
        },
{
    let chars = chars_of(raw);
    let (a, b) = trim_bounds(&chars);
    let ghost t = chars@.subrange(a as int, b as int);
    let mut out = String::new();
    let mut kept: Vec<char> = Vec::new();
    let mut i = a;
    while i < b && kept.len() < 32
        invariant
            a <= i <= b <= chars.len(),
            t == chars@.subrange(a as int, b as int),
            kept@ == bay_chars(t.take(i - a)),
            out@ == kept@,
            kept.len() <= 32,
        decreases b - i,
    {
        let c = chars[i];
        proof {
            assert(t.take(i + 1 - a).drop_last() =~= t.take(i - a));
            assert(t.take(i + 1 - a).last() == c);
        }
        if bay_char_ok(c) {
            let m = ascii_lower_char(c);
            push_char(&mut out, m);
            kept.push(m);
        } else if is_ws_char(c) {
            push_char(&mut out, '_');
            kept.push('_');
        }
        i = i + 1;
    }
    proof {
        lemma_bay_chars_prefix(t, i - a);
        if i == b {
            assert(t.take(i - a) =~= t);
        } else {
            assert(bay_chars(t).take(32) =~= kept@);
        }
        lemma_bay_chars_out(t);
    }
    if kept.len() == 0 {
        let e = String::from_str("bay id is empty");
        proof {
            reveal_strlit("bay id is empty");
        }
        return Err(e);
    }
    let mut j: usize = 0;
    while j < kept.len()
        invariant
            forall|k: int| 0 <= k < kept@.len() ==> bay_out_char(#[trigger] kept@[k]),
        decreases kept.len() - j,
    {
        if !bay_char_ok(kept[j]) {
            let e = String::from_str("invalid bay id");
            return Err(e);
        }
        j = j + 1;
    }
    Ok(out)
}

// ------------------------------------------------------------- serial ports

/// A serial port as the system lists it: its name, and for a USB port the
/// product name it reports.
pub struct PortListing {
    pub port_name: String,
    pub usb_product: Option<String>,
}

/// A port as offered: (path, shown name).
pub type PortView = (Seq<char>, Seq<char>);

/// The name shown for a port: `name (product)` for a USB port with a
/// product name, else the port's own name.
pub open spec fn port_label(name: Seq<char>, product: Option<Seq<char>>) -> Seq<char> {
    match product {
        Some(p) => if p.len() > 0 {
            name + " ("@ + p + ")"@
        } else {
            name
        },
        None => name,
    }
}

/// How a listed port is offered.
pub open spec fn listing_view(l: PortListing) -> PortView {
    (l.port_name@, port_label(l.port_name@, opt_view(l.usb_product)))
}

/// The views of offered ports.
pub open spec fn infos_view(v: Seq<SerialPortInfo>) -> Seq<PortView> {
    v.map_values(|i: SerialPortInfo| (i.path@, i.name@))
}

/// The views of listed ports.
pub open spec fn listings_view(v: Seq<PortListing>) -> Seq<PortView> {
    v.map_values(|l: PortListing| listing_view(l))
}

/// Lexicographic order of byte strings (how `String` values compare).
pub open spec fn lex_le(a: Seq<u8>, b: Seq<u8>) -> bool
    decreases a.len(),
{
    if a.len() == 0 {
        true
    } else if b.len() == 0 {
        false
    } else if a[0] != b[0] {
        a[0] < b[0]
    } else {
        lex_le(a.drop_first(), b.drop_first())
    }
}

/// `lex_le` is reflexive.
pub proof fn lemma_lex_refl(a: Seq<u8>)
    ensures
        lex_le(a, a),
    decreases a.len(),
{
    if a.len() > 0 {
        lemma_lex_refl(a.drop_first());
    }
}

/// Any two byte strings are ordered one way or the other.
pub proof fn lemma_lex_total(a: Seq<u8>, b: Seq<u8>)
    ensures
        lex_le(a, b) || lex_le(b, a),
    decreases a.len(),
{
    if a.len() > 0 && b.len() > 0 && a[0] == b[0] {
        lemma_lex_total(a.drop_first(), b.drop_first());
    }
}

/// `lex_le` is transitive.
pub proof fn lemma_lex_trans(a: Seq<u8>, b: Seq<u8>, c: Seq<u8>)
    requires
        lex_le(a, b),
        lex_le(b, c),
    ensures
        lex_le(a, c),
    decreases a.len(),
{
    if a.len() > 0 && b.len() > 0 && c.len() > 0 && a[0] == b[0] && b[0] == c[0] {
        lemma_lex_trans(a.drop_first(), b.drop_first(), c.drop_first());
    }
}

/// The entries of `s` with path `p`, in order.
pub open spec fn with_path(s: Seq<PortView>, p: Seq<char>) -> Seq<PortView>
    decreases s.len(),
{
    if s.len() == 0 {
        Seq::empty()
    } else {
        with_path(s.drop_last(), p) + if s.last().0 == p {
            seq![s.last()]
        } else {
            Seq::empty()
        }
    }
}

proof fn lemma_with_path_add(a: Seq<PortView>, b: Seq<PortView>, p: Seq<char>)
    ensures
        with_path(a + b, p) == with_path(a, p) + with_path(b, p),
    decreases b.len(),
{
    if b.len() == 0 {
        assert(a + b =~= a);
        assert(with_path(a, p) + with_path(b, p) =~= with_path(a, p));
    } else {
        lemma_with_path_add(a, b.drop_last(), p);
        assert((a + b).drop_last() =~= a + b.drop_last());
        assert((a + b).last() == b.last());
        assert(with_path(a + b, p) =~= with_path(a, p) + with_path(b, p));
    }
}

proof fn lemma_with_path_none(s: Seq<PortView>, p: Seq<char>)
    requires
        forall|i: int| 0 <= i < s.len() ==> #[trigger] s[i].0 != p,
    ensures
        with_path(s, p) == Seq::<PortView>::empty(),
    decreases s.len(),
{
    if s.len() > 0 {
        lemma_with_path_none(s.drop_last(), p);
        assert(with_path(s, p) =~= Seq::<PortView>::empty());
    }
}

/// The ports are in order of their paths, compared byte by byte.
pub open spec fn sorted_by_path(s: Seq<PortView>) -> bool {
    forall|i: int, j: int|
        0 <= i < j < s.len() ==> lex_le(encode_utf8(#[trigger] s[i].0), encode_utf8(#[trigger] s[j].0))
}

fn lex_le_bytes(a: &[u8], b: &[u8]) -> (r: bool)
    ensures
        r == lex_le(a@, b@),
{
    let mut i: usize = 0;
    assert(a@.skip(0) =~= a@ && b@.skip(0) =~= b@);
    while i < a.len() && i < b.len() && a[i] == b[i]
        invariant
            i <= a@.len(),
            i <= b@.len(),
            lex_le(a@, b@) == lex_le(a@.skip(i as int), b@.skip(i as int)),
        decreases a@.len() - i,
    {
        proof {
            assert(a@.skip(i as int).drop_first() =~= a@.skip(i + 1));
            assert(b@.skip(i as int).drop_first() =~= b@.skip(i + 1));
        }
        i = i + 1;
    }
    if i == a.len() {
        return true;
    }
    if i == b.len() {
        return false;
    }
    assert(a@.skip(i as int)[0] == a@[i as int] && b@.skip(i as int)[0] == b@[i as int]);
    a[i] < b[i]
}

/// The port as offered to the user.
pub fn describe_port(p: &PortListing) -> (r: SerialPortInfo)
    ensures
        (r.path@, r.name@) == listing_view(*p),
{
    let name = match &p.usb_product {
        Some(prod) => {
            if prod.as_str().is_empty() {
                p.port_name.clone()
            } else {
                let mut n = p.port_name.clone();
                crate::text::push_str(&mut n, " (");
                crate::text::push_str(&mut n, prod.as_str());
                crate::text::push_str(&mut n, ")");
                proof {
                    assert(n@ =~= p.port_name@ + " ("@ + prod@ + ")"@);
                }
                n
            }
        },
        None => p.port_name.clone(),
    };
    SerialPortInfo { path: p.port_name.clone(), name }
}

/// The ports offered to the user: each named as `describe_port` does, ordered
/// by path (byte by byte, as `String` values compare), and ports with the same
/// path kept in the order listed.
pub fn describe_ports(ports: &Vec<PortListing>) -> (r: Vec<SerialPortInfo>)
    ensures
        r@.len() == ports@.len(),
        sorted_by_path(infos_view(r@)),
        forall|p: Seq<char>| #[trigger] with_path(infos_view(r@), p) == with_path(listings_view(ports@), p),
{
    let mut out: Vec<SerialPortInfo> = Vec::new();
    let n = ports.len();
    for i in 0..n
        invariant
            n == ports.len(),
            out@.len() == i,
            sorted_by_path(infos_view(out@)),
            forall|p: Seq<char>| #[trigger] with_path(infos_view(out@), p) == with_path(listings_view(ports@).take(i as int), p),
    {
        let info = describe_port(&ports[i]);
        let ghost x = (info.path@, info.name@);
        let ghost old_out = infos_view(out@);
        let mut j = out.len();
        while j > 0 && !lex_le_bytes(out[j - 1].path.as_str().as_bytes(), info.path.as_str().as_bytes())
            invariant
                j <= out@.len(),
                x.0 == info.path@,
                forall|k: int| j <= k < out@.len() ==> !lex_le(encode_utf8(#[trigger] out@[k].path@), encode_utf8(x.0)),
            decreases j,
        {
            j = j - 1;
        }
        proof {
            let v = infos_view(out@);
            if j > 0 {
                assert(lex_le(encode_utf8(v[j - 1].0), encode_utf8(x.0)));
                assert forall|k: int| 0 <= k < j implies lex_le(encode_utf8(#[trigger] v[k].0), encode_utf8(x.0)) by {
                    if k < j - 1 {
                        lemma_lex_trans(encode_utf8(v[k].0), encode_utf8(v[j - 1].0), encode_utf8(x.0));
                    }
                }
            }
            assert forall|k: int| j <= k < v.len() implies lex_le(encode_utf8(x.0), encode_utf8(#[trigger] v[k].0)) && v[k].0 != x.0 by {
                assert(v[k].0 == out@[k].path@);
                lemma_lex_total(encode_utf8(v[k].0), encode_utf8(x.0));
                if v[k].0 == x.0 {
                    lemma_lex_refl(encode_utf8(x.0));
                }
            }
        }
        out.insert(j, info);
        proof {
            let v = old_out;
            let w = infos_view(out@);
            assert(w =~= v.take(j as int) + seq![x] + v.skip(j as int));
            assert(v =~= v.take(j as int) + v.skip(j as int));
            assert forall|a: int, b: int| 0 <= a < b < w.len() implies lex_le(encode_utf8(#[trigger] w[a].0), encode_utf8(#[trigger] w[b].0)) by {
                if a < j && b < j {
                    assert(w[a] == v[a] && w[b] == v[b]);
                } else if a < j && b == j {
                    assert(w[a] == v[a]);
                } else if a < j {
                    assert(w[a] == v[a] && w[b] == v[b - 1]);
                } else if a == j {
                    assert(w[b] == v[b - 1]);
                } else {
                    assert(w[a] == v[a - 1] && w[b] == v[b - 1]);
                }
            }
            let lv = listings_view(ports@);
            assert(lv.take(i + 1) =~= lv.take(i as int) + seq![x]);
            assert(lv[i as int] == listing_view(ports@[i as int]));
            assert forall|p: Seq<char>| #[trigger] with_path(w, p) == with_path(lv.take(i + 1), p) by {
                lemma_with_path_add(v.take(j as int) + seq![x], v.skip(j as int), p);
                lemma_with_path_add(v.take(j as int), seq![x], p);
                lemma_with_path_add(v.take(j as int), v.skip(j as int), p);
                lemma_with_path_add(lv.take(i as int), seq![x], p);
                if p == x.0 {
                    assert forall|k: int| 0 <= k < v.skip(j as int).len() implies #[trigger] v.skip(j as int)[k].0 != p by {
                        assert(v.skip(j as int)[k] == v[k + j]);
                    }
                    lemma_with_path_none(v.skip(j as int), p);
                }
                assert(with_path(seq![x], p) =~= (if x.0 == p { seq![x] } else { Seq::<PortView>::empty() })) by {
                    assert(seq![x].drop_last() =~= Seq::<PortView>::empty());
                    assert(seq![x].last() == x);
                    assert(with_path(Seq::<PortView>::empty(), p) =~= Seq::<PortView>::empty());
                }
            }
        }
    }
    proof {
        assert(listings_view(ports@).take(n as int) =~= listings_view(ports@));
    }
    out
}

/// The API path of a bay's mood.
pub fn bay_mood_path(bay_id: &str) -> (r: Result<String, String>)
    ensures
        match r {
            Ok(p) => normalized_bay(bay_id@).len() > 0 && p@ == "/api/bays/"@ + normalized_bay(bay_id@)
                + "/mood"@,
            Err(e) => normalized_bay(bay_id@).len() == 0 && e@ == "bay id is empty"@,
        },
{
    let id = match normalize_bay_id(bay_id) {
        Ok(id) => id,
        Err(e) => {
            return Err(e);
        },
    };
    let mut p = String::from_str("/api/bays/");
    crate::text::push_str(&mut p, id.as_str());
    crate::text::push_str(&mut p, "/mood");
    proof {
        assert(p@ =~= "/api/bays/"@ + normalized_bay(bay_id@) + "/mood"@);
    }
    Ok(p)
}

/// Normalizing a normalized bay id changes nothing.
pub proof fn lemma_normalize_idempotent(raw: Seq<char>)
    ensures
        normalized_bay(normalized_bay(raw)) == normalized_bay(raw),
{
    let n = normalized_bay(raw);
    let m = bay_chars(trim(raw));
    lemma_bay_chars_out(trim(raw));
    assert forall|i: int| 0 <= i < n.len() implies bay_out_char(#[trigger] n[i]) by {
        assert(n[i] == m[i]);
    }
    if n.len() > 0 {
        assert(!is_ws(n[0]) && !is_ws(n.last())) by {
            assert(bay_out_char(n[0]));
            assert(bay_out_char(n[n.len() - 1]));
        }
    }
    lemma_trim_id(n);
    lemma_bay_chars_fixed(n);
}

/// A normalized bay id holds only lower-case ASCII letters, digits and
/// `_ . : -`, and at most 32 of them.
pub proof fn lemma_normalized_shape(raw: Seq<char>)
    ensures
        normalized_bay(raw).len() <= 32,
        forall|i: int| 0 <= i < normalized_bay(raw).len() ==> bay_out_char(
            #[trigger] normalized_bay(raw)[i],
        ),
{
    let m = bay_chars(trim(raw));
    lemma_bay_chars_out(trim(raw));
    assert forall|i: int| 0 <= i < normalized_bay(raw).len() implies bay_out_char(
        #[trigger] normalized_bay(raw)[i],
    ) by {
        assert(normalized_bay(raw)[i] == m[i]);
    }
}

// ------------------------------------------------------ key=value replies

/// `word.split_once('=')` when the part before `=` is `key`: the part after.
pub open spec fn field_of(word: Seq<char>, key: Seq<char>) -> Option<Seq<char>> {
    match find_first(word, '=') {
        Some(i) => if word.take(i) == key {
            Some(word.skip(i + 1))
        } else {
            None
        },
        None => None,
    }
}

/// The value of the first word of `ws` that is `key=value`.
pub open spec fn lookup_field(ws: Seq<Seq<char>>, key: Seq<char>) -> Option<Seq<char>>
    decreases ws.len(),
{
    if ws.len() == 0 {
        None
    } else {
        match field_of(ws[0], key) {
            Some(v) => Some(v),
            None => lookup_field(ws.drop_first(), key),
        }
    }
}

/// The value of `key` in a whitespace-separated `key=value` reply.
pub open spec fn info_value(info: Seq<char>, key: Seq<char>) -> Option<Seq<char>> {
    lookup_field(words(info), key)
}

proof fn lemma_lookup_skip(ws: Seq<Seq<char>>, key: Seq<char>, i: int)
    requires
        0 <= i <= ws.len(),
        forall|j: int| 0 <= j < i ==> field_of(#[trigger] ws[j], key) is None,
    ensures
        lookup_field(ws, key) == lookup_field(ws.skip(i), key),
    decreases i,
{
    if i > 0 {
        let t = ws.drop_first();
        assert forall|j: int| 0 <= j < i - 1 implies field_of(#[trigger] t[j], key) is None by {
            assert(t[j] == ws[j + 1]);
        }
        lemma_lookup_skip(t, key, i - 1);
        assert(t.skip(i - 1) =~= ws.skip(i));
        assert(ws.skip(0) =~= ws);
        assert(field_of(ws[0], key) is None);
    } else {
        assert(ws.skip(0) =~= ws);
    }
}

/// The value of `key` in a reply like `OK device=ab12 provisioned=yes`: the
/// first whitespace-separated word of the form `key=value`.
pub fn info_field(info: &str, key: &str) -> (r: Option<String>)
    ensures
        opt_view(r) == info_value(info@, key@),
{
    let chars = chars_of(info);
    let key_chars = chars_of(key);
    let ws = split_ws(&chars);
    let n = ws.len();
    for i in 0..n
        invariant
            n == ws.len(),
            views(ws@) == words(info@),
            key_chars@ == key@,
            forall|j: int| 0 <= j < i ==> field_of(#[trigger] views(ws@)[j], key@) is None,
    {
        let w = &ws[i];
        assert(views(ws@)[i as int] == w@);
        match find_char(w, '=') {
            Some(k) => {
                let before = slice_vec(w, 0, k);
                if seq_eq(&before, &key_chars) {
                    let after = slice_vec(w, k + 1, w.len());
                    proof {
                        assert(before@ =~= w@.take(k as int));
                        assert(after@ =~= w@.skip(k + 1));
                        lemma_lookup_skip(views(ws@), key@, i as int);
                    }
                    return Some(string_of(&after));
                }
                proof {
                    assert(before@ =~= w@.take(k as int));
                }
            },
            None => {},
        }
    }
    proof {
        lemma_lookup_skip(views(ws@), key@, n as int);
    }
    None
}

// ------------------------------------------------------------ command lines

/// The bytes written to the puck for a command: the trimmed line and `\n`.
pub fn command_payload(line: &str) -> (r: String)
    ensures
        r@ == trim(line@).push('\n'),
{
    let chars = chars_of(line);
    let (a, b) = trim_bounds(&chars);
    let t = slice_vec(&chars, a, b);
    let mut out = string_of(&t);
    push_char(&mut out, '\n');
    out
}

/// The moods a puck can show.
pub open spec fn valid_mood(m: Seq<char>) -> bool {
    ||| m == "cozy"@
    ||| m == "drafty"@
    ||| m == "shiver"@
    ||| m == "panic"@
    ||| m == "offline"@
    ||| m == "hero"@
}

/// The `MOOD` command for a mood typed by the user: trimmed and lower-cased,
/// and refused unless it is one of the six moods.
pub fn mood_command(mood: &str) -> (r: Result<String, String>)
    ensures
        match r {
            Ok(cmd) => valid_mood(lower_seq(trim(mood@))) && cmd@ == "MOOD "@ + lower_seq(
                trim(mood@),
            ),
            Err(e) => !valid_mood(lower_seq(trim(mood@))) && e@ == "bad mood: "@ + lower_seq(
                trim(mood@),
            ),
        },
{
    let chars = chars_of(mood);
    let (a, b) = trim_bounds(&chars);
    let mut m: Vec<char> = Vec::new();
    let mut i = a;
    while i < b
        invariant
            a <= i <= b <= chars.len(),
            m@ == lower_seq(chars@.subrange(a as int, i as int)),
        decreases b - i,
    {
        m.push(ascii_lower_char(chars[i]));
        proof {
            assert(lower_seq(chars@.subrange(a as int, i + 1)) =~= lower_seq(
                chars@.subrange(a as int, i as int),
            ).push(ascii_lower(chars@[i as int])));
        }
        i = i + 1;
    }
    let ok = seq_eq(&m, &chars_of("cozy")) || seq_eq(&m, &chars_of("drafty")) || seq_eq(
        &m,
        &chars_of("shiver"),
    ) || seq_eq(&m, &chars_of("panic")) || seq_eq(&m, &chars_of("offline")) || seq_eq(
        &m,
        &chars_of("hero"),
    );
    if ok {
        let mut cmd = String::from_str("MOOD ");
        push_chars(&mut cmd, &m);
        Ok(cmd)
    } else {
        let mut e = String::from_str("bad mood: ");
        push_chars(&mut e, &m);
        Err(e)
    }
}

// -------------------------------------------------------------- reply lines

/// A line the puck sends in answer to a command.
pub open spec fn is_reply_line(l: Seq<char>) -> bool {
    starts_with(l, "OK"@) || starts_with(l, "ERR"@) || starts_with(l, "RESPONSE"@)
}

/// What the reader makes of the bytes of one finished line.
pub open spec fn line_text(buf: Seq<u8>) -> Seq<char> {
    trim(utf8_lossy(buf))
}

/// The longest line the reader holds before it gives up.
pub const MAX_LINE: usize = 512;

/// What one byte from the serial port leads to.
pub enum LineEvent {
    /// Nothing to report yet.
    Pending,
    /// A complete answer from the puck.
    Reply(String),
    /// The reader gave up; the message says why.
    Failed(String),
}

/// What taking `byte` does to the held bytes `before` (leaving `after`) and
/// what it reports (`ev`).
pub open spec fn fed(before: Seq<u8>, byte: u8, after: Seq<u8>, ev: LineEvent) -> bool {
    &&& (byte == 10 || byte == 13) && before.len() == 0 ==> ev is Pending && after == before
    &&& (byte == 10 || byte == 13) && before.len() > 0 ==> {
        let l = line_text(before);
        &&& after == Seq::<u8>::empty()
        &&& is_reply_line(l) ==> (ev matches LineEvent::Reply(r) && r@ == l)
        &&& !is_reply_line(l) ==> ev is Pending
    }
    &&& !(byte == 10 || byte == 13) ==> {
        &&& after == before.push(byte)
        &&& after.len() > MAX_LINE ==> (ev matches LineEvent::Failed(m) && m@
            == "serial line too long"@)
        &&& after.len() <= MAX_LINE ==> ev is Pending
    }
}

/// A finished line that starts with `OK`, `ERR` or `RESPONSE` is reported
/// when its line ending arrives, as its text with the whitespace around it
/// removed; any other finished line is dropped.
pub proof fn lemma_feed_reports_answers(before: Seq<u8>, byte: u8, after: Seq<u8>, ev: LineEvent)
    requires
        before.len() > 0,
        byte == 10 || byte == 13,
        fed(before, byte, after, ev),
    ensures
        starts_with(line_text(before), "OK"@) || starts_with(line_text(before), "ERR"@)
            || starts_with(line_text(before), "RESPONSE"@) ==> (ev matches LineEvent::Reply(r) && r@
            == line_text(before)),
        !(starts_with(line_text(before), "OK"@) || starts_with(line_text(before), "ERR"@)
            || starts_with(line_text(before), "RESPONSE"@)) ==> ev is Pending,
        after.len() == 0,
        ev matches LineEvent::Reply(r) ==> (r@.len() == 0 || (!is_ws(r@[0]) && !is_ws(r@.last()))),
        ev matches LineEvent::Reply(r) ==> exists|a: Seq<char>, b: Seq<char>|
            crate::text::all_ws(a) && crate::text::all_ws(b) && utf8_lossy(before) == a + r@ + b,
{
    crate::text::lemma_trim_shape(utf8_lossy(before));
}

/// What one attempt to read the serial port gave.
pub enum SerialRead {
    /// No byte this time (nothing read, or the read timed out).
    Idle,
    /// One byte.
    Byte(u8),
    /// The read failed; the text is the error.
    Error(String),
    /// The time allowed for the answer has run out.
    Expired,
}

/// Collects the bytes of the puck's output into lines and picks out the
/// answer lines (`OK...`, `ERR...`, `RESPONSE...`), skipping boot chatter.
pub struct LineReader {
    buf: Vec<u8>,
}

impl View for LineReader {
    type V = Seq<u8>;

    closed spec fn view(&self) -> Seq<u8> {
        self.buf@
    }
}

impl LineReader {
    /// A reader holding no bytes.
    pub fn new() -> (r: LineReader)
        ensures
            r@ == Seq::<u8>::empty(),
    {
        LineReader { buf: Vec::new() }
    }

    /// Takes the next byte. A line ends at `\n` or `\r`; an empty line is
    /// skipped; a finished line that is an answer is reported trimmed, any
    /// other is dropped; a line longer than 512 bytes fails.
    pub fn feed(&mut self, byte: u8) -> (ev: LineEvent)
        ensures
            fed(old(self)@, byte, final(self)@, ev),
    {
        if byte == 10 || byte == 13 {
            if self.buf.len() == 0 {
                return LineEvent::Pending;
            }
            let text = string_from_utf8_lossy(self.buf.as_slice());
            let chars = chars_of(text.as_str());
            let (a, b) = trim_bounds(&chars);
            let line = slice_vec(&chars, a, b);
            self.buf = Vec::new();
            let reply = has_prefix(&line, &chars_of("OK")) || has_prefix(&line, &chars_of("ERR"))
                || has_prefix(&line, &chars_of("RESPONSE"));
            if reply {
                return LineEvent::Reply(string_of(&line));
            }
            return LineEvent::Pending;
        }
        self.buf.push(byte);
        if self.buf.len() > MAX_LINE {
            return LineEvent::Failed(String::from_str("serial line too long"));
        }
        LineEvent::Pending
    }

    /// Takes the outcome of one read of the serial port: a byte goes to
    /// `feed`; a failed read fails with `serial read: ` and the error; once
    /// the time is up the answer fails as `device timed out`.
    pub fn on_read(&mut self, read: SerialRead) -> (ev: LineEvent)
        ensures
            read is Idle ==> ev is Pending && final(self)@ == old(self)@,
            read matches SerialRead::Byte(b) ==> fed(old(self)@, b, final(self)@, ev),
            read matches SerialRead::Error(e) ==> final(self)@ == old(self)@,
            read matches SerialRead::Error(e) ==> (ev matches LineEvent::Failed(m) && m@
                == "serial read: "@ + e@),
            read is Expired ==> final(self)@ == old(self)@,
            read is Expired ==> (ev matches LineEvent::Failed(m) && m@ == "device timed out"@),
    {
        match read {
            SerialRead::Idle => LineEvent::Pending,
            SerialRead::Byte(b) => self.feed(b),
            SerialRead::Error(e) => {
                let mut m = String::new();
                crate::text::push_str(&mut m, "serial read: ");
                crate::text::push_str(&mut m, e.as_str());
                LineEvent::Failed(m)
            },
            SerialRead::Expired => LineEvent::Failed(String::from_str("device timed out")),
        }
    }
}

// ------------------------------------------------------------ provisioning

/// How many bytes `s` takes in UTF-8.
pub open spec fn byte_len(s: Seq<char>) -> nat {
    encode_utf8(s).len()
}

/// What the puck's answer to `PROVISION` leads to.
pub enum ProvisionReply {
    /// The puck refused; its answer is the error.
    Failed(String),
    /// The puck named its 32-byte device id.
    Provisioned(String),
    /// The answer held no usable device id: ask with `INFO`.
    NeedInfo,
}

/// Sorts the puck's answer to `PROVISION`.
pub fn provision_reply(resp: &str) -> (r: ProvisionReply)
    ensures
        !starts_with(resp@, "OK"@) ==> (r matches ProvisionReply::Failed(e) && e@ == resp@),
        starts_with(resp@, "OK"@) ==> match info_value(resp@, "device"@) {
            Some(d) => if byte_len(d) == 32 {
                r matches ProvisionReply::Provisioned(id) && id@ == d
            } else {
                r is NeedInfo
            },
            None => r is NeedInfo,
        },
{
    let chars = chars_of(resp);
    if !has_prefix(&chars, &chars_of("OK")) {
        return ProvisionReply::Failed(string_of(&chars));
    }
    match info_field(resp, "device") {
        Some(d) => {
            if utf8_len_is(&chars_of(d.as_str()), 32) {
                ProvisionReply::Provisioned(d)
            } else {
                ProvisionReply::NeedInfo
            }
        },
        None => ProvisionReply::NeedInfo,
    }
}

/// The device id from the puck's answer to `INFO` after provisioning; `None`
/// when that command failed.
pub fn device_id_from_info(info: Option<&str>) -> (r: Result<String, String>)
    ensures
        match info {
            None => r matches Err(e) && e@ == "provision ok but device id missing"@,
            Some(text) => match info_value(text@, "device"@) {
                None => r matches Err(e) && e@ == "provision ok but device id missing"@,
                Some(d) => if byte_len(d) == 32 {
                    r matches Ok(id) && id@ == d
                } else {
                    r matches Err(e) && e@ == "bad device id from puck"@
                },
            },
        },
{
    match info {
        None => Err(String::from_str("provision ok but device id missing")),
        Some(text) => match info_field(text, "device") {
            None => Err(String::from_str("provision ok but device id missing")),
            Some(d) => {
                if !utf8_len_is(&chars_of(d.as_str()), 32) {
                    Err(String::from_str("bad device id from puck"))
                } else {
                    Ok(d)
                }
            },
        },
    }
}

} // verus!
