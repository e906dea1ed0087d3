//! The text format of stored values.
//!
//! Records and the index are persisted as a field-named, self-describing
//! JSON-style text: a record is one object with the five credential fields,
//! the index is an array of `{"id":..,"label":..}` objects. Quotes and
//! backslashes inside field values are escaped with a backslash. The decoder
//! accepts exactly the canonical text that the encoder emits, so decoding is
//! specified by a spec-level parser, and encoding then decoding is proved to
//! give the original value back.

use vstd::prelude::*;
use vstd::string::StrSliceExecFns;
use vstd::string::StringExecFns;

use crate::types::ItemModel;
use crate::types::RecordModel;
use crate::types::StoredRecord;
use crate::types::IndexItem;

verus! {

/// Relies on `String::push`: appends one character at the end.
#[verifier::external_body]
fn push_char(s: &mut String, c: char)
    ensures
        final(s)@ == old(s)@.push(c),
{
    s.push(c)
}

/// Collects the characters of a string slice into a vector.
pub fn str_to_chars(s: &str) -> (v: Vec<char>)
    ensures
        v@ == s@,
{
    let n = s.unicode_len();
    let mut v: Vec<char> = Vec::new();
    let mut i: usize = 0;
    while i < n
        invariant
            n == s@.len(),
            i <= n,
            v@ == s@.take(i as int),
        decreases n - i,
    {
        v.push(s.get_char(i));
        i = i + 1;
        proof {
            assert(v@ =~= s@.take(i as int));
        }
    }
    proof {
        assert(v@ =~= s@);
    }
    v
}

/// Builds a string out of a vector of characters.
pub fn chars_to_string(v: &Vec<char>) -> (s: String)
    ensures
        s@ == v@,
{
    let mut s = String::new();
    let mut i: usize = 0;
    while i < v.len()
        invariant
            i <= v@.len(),
            s@ == v@.take(i as int),
        decreases v@.len() - i,
    {
        push_char(&mut s, v[i]);
        i = i + 1;
        proof {
            assert(s@ =~= v@.take(i as int));
        }
    }
    proof {
        assert(s@ =~= v@);
    }
    s
}

/// How one character of a field value is written: quotes and backslashes get
/// a leading backslash, every other character stands as itself.
pub open spec fn esc_char(c: char) -> Seq<char> {
    if c == '"' || c == '\\' {
        seq!['\\', c]
    } else {
        seq![c]
    }
}

/// The escaped form of a field value.
pub open spec fn esc(s: Seq<char>) -> Seq<char>
    decreases s.len(),
{
    if s.len() == 0 {
        Seq::empty()
    } else {
        esc_char(s[0]) + esc(s.drop_first())
    }
}

/// A quoted string literal: escaped value between double quotes.
pub open spec fn quoted(s: Seq<char>) -> Seq<char> {
    seq!['"'] + esc(s) + seq!['"']
}

/// Escaping a single character gives exactly its escaped form.
pub proof fn lemma_esc_single(c: char)
    ensures
        esc(seq![c]) == esc_char(c),
{
    assert(seq![c].drop_first() =~= Seq::<char>::empty());
    assert(esc(Seq::<char>::empty()) == Seq::<char>::empty());
    assert(esc(seq![c]) =~= esc_char(c));
}

pub proof fn lemma_esc_append(a: Seq<char>, b: Seq<char>)
    ensures
        esc(a + b) == esc(a) + esc(b),
    decreases a.len(),
{
    if a.len() == 0 {
        assert(a + b =~= b);
        assert(esc(a) + esc(b) =~= esc(b));
    } else {
        assert((a + b).drop_first() =~= a.drop_first() + b);
        lemma_esc_append(a.drop_first(), b);
        assert(esc(a + b) =~= esc(a) + esc(b));
    }
}

/// Appends the escaped form of `s` to `out`.
fn push_escaped(out: &mut Vec<char>, s: &str)
    ensures
        final(out)@ == old(out)@ + esc(s@),
{
    let n = s.unicode_len();
    let ghost out0 = out@;
    proof {
        assert(s@.take(0) =~= Seq::<char>::empty());
        assert(out@ =~= out0 + esc(s@.take(0)));
    }
    let mut i: usize = 0;
    while i < n
        invariant
            n == s@.len(),
            i <= n,
            out@ == out0 + esc(s@.take(i as int)),
        decreases n - i,
    {
        let c = s.get_char(i);
        if c == '"' || c == '\\' {
            out.push('\\');
        }
        out.push(c);
        proof {
            assert(s@.take(i + 1) =~= s@.take(i as int) + seq![s@[i as int]]);
            lemma_esc_append(s@.take(i as int), seq![s@[i as int]]);
            lemma_esc_single(s@[i as int]);
            assert(out@ =~= out0 + esc(s@.take(i + 1)));
        }
        i = i + 1;
    }
    proof {
        assert(s@.take(n as int) =~= s@);
    }
}

/// Appends the quoted, escaped form of `s` to `out`.
fn push_quoted(out: &mut Vec<char>, s: &str)
    ensures
        final(out)@ == old(out)@ + quoted(s@),
{
    out.push('"');
    push_escaped(out, s);
    out.push('"');
    proof {
        assert(out@ =~= old(out)@ + quoted(s@));
    }
}

/// The field name `"id":` as it stands in the text.
pub open spec fn key_id() -> Seq<char> {
    seq!['"', 'i', 'd', '"', ':']
}

/// The field name `"label":` as it stands in the text.
pub open spec fn key_label() -> Seq<char> {
    seq!['"', 'l', 'a', 'b', 'e', 'l', '"', ':']
}

/// The field name `"url":` as it stands in the text.
pub open spec fn key_url() -> Seq<char> {
    seq!['"', 'u', 'r', 'l', '"', ':']
}

/// The field name `"client_id":` as it stands in the text.
pub open spec fn key_client_id() -> Seq<char> {
    seq!['"', 'c', 'l', 'i', 'e', 'n', 't', '_', 'i', 'd', '"', ':']
}

/// The field name `"client_secret":` as it stands in the text.
pub open spec fn key_client_secret() -> Seq<char> {
    seq!['"', 'c', 'l', 'i', 'e', 'n', 't', '_', 's', 'e', 'c', 'r', 'e', 't', '"', ':']
}

fn push_key_id(out: &mut Vec<char>)
    ensures
        final(out)@ == old(out)@ + key_id(),
{
    out.push('"');
    out.push('i');
    out.push('d');
    out.push('"');
    out.push(':');
    proof {
        assert(out@ =~= old(out)@ + key_id());
    }
}

fn push_key_label(out: &mut Vec<char>)
    ensures
        final(out)@ == old(out)@ + key_label(),
{
    out.push('"');
    out.push('l');
    out.push('a');
    out.push('b');
    out.push('e');
    out.push('l');
    out.push('"');
    out.push(':');
    proof {
        assert(out@ =~= old(out)@ + key_label());
    }
}

fn push_key_url(out: &mut Vec<char>)
    ensures
        final(out)@ == old(out)@ + key_url(),
{
    out.push('"');
    out.push('u');
    out.push('r');
    out.push('l');
    out.push('"');
    out.push(':');
    proof {
        assert(out@ =~= old(out)@ + key_url());
    }
}

fn push_key_client_id(out: &mut Vec<char>)
    ensures
        final(out)@ == old(out)@ + key_client_id(),
{
    out.push('"');
    out.push('c');
    out.push('l');
    out.push('i');
    out.push('e');
    out.push('n');
    out.push('t');
    out.push('_');
    out.push('i');
    out.push('d');
    out.push('"');
    out.push(':');
    proof {
        assert(out@ =~= old(out)@ + key_client_id());
    }
}

fn push_key_client_secret(out: &mut Vec<char>)
    ensures
        final(out)@ == old(out)@ + key_client_secret(),
{
    out.push('"');
    out.push('c');
    out.push('l');
    out.push('i');
    out.push('e');
    out.push('n');
    out.push('t');
    out.push('_');
    out.push('s');
    out.push('e');
    out.push('c');
    out.push('r');
    out.push('e');
    out.push('t');
    out.push('"');
    out.push(':');
    proof {
        assert(out@ =~= old(out)@ + key_client_secret());
    }
}

/// The encoded form of a whole record.
pub open spec fn enc_record(r: RecordModel) -> Seq<char> {
    seq!['{'] + key_id() + quoted(r.id) + seq![','] + key_label() + quoted(r.label) + seq![',']
        + key_url() + quoted(r.url) + seq![','] + key_client_id() + quoted(r.client_id)
        + seq![','] + key_client_secret() + quoted(r.client_secret) + seq!['}']
}

/// The encoded form of one index entry.
pub open spec fn enc_item(it: ItemModel) -> Seq<char> {
    seq!['{'] + key_id() + quoted(it.id) + seq![','] + key_label() + quoted(it.label) + seq!['}']
}

/// The encoded entries of the index, separated by commas.
pub open spec fn enc_items(items: Seq<ItemModel>) -> Seq<char>
    decreases items.len(),
{
    if items.len() == 0 {
        Seq::empty()
    } else if items.len() == 1 {
        enc_item(items[0])
    } else {
        enc_item(items[0]) + seq![','] + enc_items(items.drop_first())
    }
}

/// The encoded form of the whole index.
pub open spec fn enc_index(items: Seq<ItemModel>) -> Seq<char> {
    seq!['['] + enc_items(items) + seq![']']
}

/// Writes a record in the canonical text form.
pub fn encode_record(rec: &StoredRecord) -> (r: String)
    ensures
        r@ == enc_record(rec@),
{
    let mut out: Vec<char> = Vec::new();
    out.push('{');
    push_key_id(&mut out);
    push_quoted(&mut out, rec.id.as_str());
    out.push(',');
    push_key_label(&mut out);
    push_quoted(&mut out, rec.label.as_str());
    out.push(',');
    push_key_url(&mut out);
    push_quoted(&mut out, rec.url.as_str());
    out.push(',');
    push_key_client_id(&mut out);
    push_quoted(&mut out, rec.client_id.as_str());
    out.push(',');
    push_key_client_secret(&mut out);
    push_quoted(&mut out, rec.client_secret.as_str());
    out.push('}');
    proof {
        assert(out@ =~= enc_record(rec@));
    }
    chars_to_string(&out)
}

fn push_item(out: &mut Vec<char>, it: &IndexItem)
    ensures
        final(out)@ == old(out)@ + enc_item(it@),
{
    out.push('{');
    push_key_id(out);
    push_quoted(out, it.id.as_str());
    out.push(',');
    push_key_label(out);
    push_quoted(out, it.label.as_str());
    out.push('}');
    proof {
        assert(out@ =~= old(out)@ + enc_item(it@));
    }
}

/// Writes the index in the canonical text form.
pub fn encode_index(items: &Vec<IndexItem>) -> (r: String)
    ensures
        r@ == enc_index(items.deep_view()),
{
    let mut out: Vec<char> = Vec::new();
    out.push('[');
    let mut i: usize = 0;
    while i < items.len()
        invariant
            i <= items@.len(),
            items.deep_view().len() == items@.len(),
            forall|k: int| 0 <= k < items@.len() ==> items.deep_view()[k] == items@[k]@,
            out@ == seq!['['] + enc_items(items.deep_view().take(i as int)),
        decreases items@.len() - i,
    {
        if i > 0 {
            out.push(',');
        }
        push_item(&mut out, &items[i]);
        proof {
            lemma_enc_items_push(items.deep_view().take(i as int), items.deep_view()[i as int]);
            assert(items.deep_view().take(i + 1) =~= items.deep_view().take(i as int).push(
                items.deep_view()[i as int],
            ));
            assert(out@ =~= seq!['['] + enc_items(items.deep_view().take(i + 1)));
        }
        i = i + 1;
    }
    out.push(']');
    proof {
        assert(items.deep_view().take(items@.len() as int) =~= items.deep_view());
        assert(out@ =~= enc_index(items.deep_view()));
    }
    chars_to_string(&out)
}

/// Appending one entry extends the encoded entry list by a comma (when the
/// list was not empty) and the entry's own text.
pub proof fn lemma_enc_items_push(items: Seq<ItemModel>, it: ItemModel)
    ensures
        items.len() == 0 ==> enc_items(items.push(it)) == enc_item(it),
        items.len() > 0 ==> enc_items(items.push(it)) == enc_items(items) + seq![','] + enc_item(
            it,
        ),
    decreases items.len(),
{
    if items.len() == 0 {
        assert(items.push(it).len() == 1);
        assert(items.push(it)[0] == it);
    } else if items.len() == 1 {
        assert(items.push(it).drop_first() =~= seq![it]);
        assert(enc_items(seq![it]) == enc_item(it));
        assert(enc_items(items.push(it)) == enc_item(items[0]) + seq![','] + enc_item(it));
    } else {
        assert(items.push(it).drop_first() =~= items.drop_first().push(it));
        lemma_enc_items_push(items.drop_first(), it);
        assert(enc_items(items.push(it)) =~= enc_items(items) + seq![','] + enc_item(it));
    }
}

/// Spec-level scan of a quoted string's body, starting after the opening
/// quote, with the characters already read in `acc`.
pub open spec fn p_qstr_body(s: Seq<char>, i: int, acc: Seq<char>) -> Option<(Seq<char>, int)>
    decreases s.len() - i,
{
    if i < 0 || i >= s.len() {
        None
    } else if s[i] == '"' {
        Some((acc, i + 1))
    } else if s[i] == '\\' {
        if i + 1 < s.len() && (s[i + 1] == '"' || s[i + 1] == '\\') {
            p_qstr_body(s, i + 2, acc.push(s[i + 1]))
        } else {
            None
        }
    } else {
        p_qstr_body(s, i + 1, acc.push(s[i]))
    }
}

/// Spec-level parse of a quoted string literal at position `i`.
pub open spec fn p_qstr(s: Seq<char>, i: int) -> Option<(Seq<char>, int)> {
    if 0 <= i < s.len() && s[i] == '"' {
        p_qstr_body(s, i + 1, Seq::empty())
    } else {
        None
    }
}

/// Spec-level match of the fixed text `lit` at position `i`.
pub open spec fn p_lit(s: Seq<char>, i: int, lit: Seq<char>) -> Option<int> {
    if 0 <= i && i + lit.len() <= s.len() && s.subrange(i, i + lit.len() as int) == lit {
        Some(i + lit.len() as int)
    } else {
        None
    }
}

/// Spec-level parse of a field: its name followed by a quoted value.
pub open spec fn p_field(s: Seq<char>, i: int, key: Seq<char>) -> Option<(Seq<char>, int)> {
    match p_lit(s, i, key) {
        None => None,
        Some(j) => p_qstr(s, j),
    }
}

/// The decoded record of a whole text, if the text is the canonical encoding
/// of one.
pub open spec fn dec_record(s: Seq<char>) -> Option<RecordModel> {
    match p_lit(s, 0, seq!['{']) {
        None => None,
        Some(i1) => match p_field(s, i1, key_id()) {
            None => None,
            Some((id, i2)) => match p_lit(s, i2, seq![',']) {
                None => None,
                Some(i3) => match p_field(s, i3, key_label()) {
                    None => None,
                    Some((label, i4)) => match p_lit(s, i4, seq![',']) {
                        None => None,
                        Some(i5) => match p_field(s, i5, key_url()) {
                            None => None,
                            Some((url, i6)) => match p_lit(s, i6, seq![',']) {
                                None => None,
                                Some(i7) => match p_field(s, i7, key_client_id()) {
                                    None => None,
                                    Some((client_id, i8)) => match p_lit(s, i8, seq![',']) {
                                        None => None,
                                        Some(i9) => match p_field(s, i9, key_client_secret()) {
                                            None => None,
                                            Some((client_secret, i10)) => if i10 == s.len() - 1
                                                && s[i10] == '}' {
                                                Some(
                                                    RecordModel {
                                                        id,
                                                        label,
                                                        url,
                                                        client_id,
                                                        client_secret,
                                                    },
                                                )
                                            } else {
                                                None
                                            },
                                        },
                                    },
                                },
                            },
                        },
                    },
                },
            },
        },
    }
}

/// Spec-level parse of one index entry at position `i`.
pub open spec fn p_item(s: Seq<char>, i: int) -> Option<(ItemModel, int)> {
    match p_lit(s, i, seq!['{']) {
        None => None,
        Some(i1) => match p_field(s, i1, key_id()) {
            None => None,
            Some((id, i2)) => match p_lit(s, i2, seq![',']) {
                None => None,
                Some(i3) => match p_field(s, i3, key_label()) {
                    None => None,
                    Some((label, i4)) => match p_lit(s, i4, seq!['}']) {
                        None => None,
                        Some(i5) => Some((ItemModel { id, label }, i5)),
                    },
                },
            },
        },
    }
}

/// Spec-level parse of the comma-separated entries, up to the closing
/// bracket that ends the text.
pub open spec fn p_items(s: Seq<char>, i: int, acc: Seq<ItemModel>) -> Option<Seq<ItemModel>>
    decreases s.len() - i,
{
    match p_item(s, i) {
        None => None,
        Some((it, j)) => if i < j && j < s.len() && s[j] == ',' {
            p_items(s, j + 1, acc.push(it))
        } else if j == s.len() - 1 && s[j] == ']' {
            Some(acc.push(it))
        } else {
            None
        },
    }
}

/// The decoded index of a whole text, if the text is the canonical encoding
/// of one.
pub open spec fn dec_index(s: Seq<char>) -> Option<Seq<ItemModel>> {
    if s == seq!['[', ']'] {
        Some(Seq::empty())
    } else {
        match p_lit(s, 0, seq!['[']) {
            None => None,
            Some(i1) => p_items(s, i1, Seq::empty()),
        }
    }
}

/// Matches one fixed character at position `i`.
fn x_ch(v: &Vec<char>, i: usize, c: char) -> (r: Option<usize>)
    ensures
        match r {
            Some(j) => p_lit(v@, i as int, seq![c]) == Some(j as int) && j == i + 1 && j <= v@.len(),
            None => p_lit(v@, i as int, seq![c]) is None,
        },
{
    if i < v.len() && v[i] == c {
        proof {
            assert(v@.subrange(i as int, i + 1) =~= seq![c]);
        }
        Some(i + 1)
    } else {
        proof {
            if i < v@.len() {
                assert(v@.subrange(i as int, i + 1)[0] == v@[i as int]);
                assert(v@.subrange(i as int, i + 1) != seq![c]);
            }
        }
        None
    }
}

/// Matches the fixed text `pat` at position `i`.
fn x_lit(v: &Vec<char>, i: usize, pat: &Vec<char>) -> (r: Option<usize>)
    ensures
        match r {
            Some(j) => p_lit(v@, i as int, pat@) == Some(j as int) && i <= j <= v@.len(),
            None => p_lit(v@, i as int, pat@) is None,
        },
{
    if i > v.len() || v.len() - i < pat.len() {
        return None;
    }
    let mut k: usize = 0;
    while k < pat.len()
        invariant
            v@.len() <= usize::MAX,
            i + pat@.len() <= v@.len(),
            k <= pat@.len(),
            forall|m: int| 0 <= m < k ==> v@[i + m] == pat@[m],
        decreases pat@.len() - k,
    {
        if v[i + k] != pat[k] {
            proof {
                assert(v@.subrange(i as int, i + pat@.len())[k as int] == v@[i + k]);
                assert(v@.subrange(i as int, i + pat@.len()) != pat@);
            }
            return None;
        }
        k = k + 1;
    }
    proof {
        assert(v@.subrange(i as int, i + pat@.len()) =~= pat@);
    }
    Some(i + pat.len())
}

/// Reads a quoted string literal at position `i`, undoing the escapes.
fn x_qstr(v: &Vec<char>, i: usize) -> (r: Option<(Vec<char>, usize)>)
    ensures
        match r {
            Some((t, j)) => p_qstr(v@, i as int) == Some((t@, j as int)) && i < j <= v@.len(),
            None => p_qstr(v@, i as int) is None,
        },
{
    if !(i < v.len() && v[i] == '"') {
        return None;
    }
    let mut j: usize = i + 1;
    let mut acc: Vec<char> = Vec::new();
    loop
        invariant
            i < v@.len(),
            v@[i as int] == '"',
            i + 1 <= j,
            j <= v@.len() + 2,
            p_qstr_body(v@, i + 1, Seq::empty()) == p_qstr_body(v@, j as int, acc@),
        decreases v@.len() - j,
    {
        if j >= v.len() {
            return None;
        }
        let c = v[j];
        if c == '"' {
            return Some((acc, j + 1));
        } else if c == '\\' {
            if j + 1 < v.len() && (v[j + 1] == '"' || v[j + 1] == '\\') {
                acc.push(v[j + 1]);
                j = j + 2;
            } else {
                return None;
            }
        } else {
            acc.push(c);
            j = j + 1;
        }
    }
}

/// Reads a field name and its quoted value at position `i`.
fn x_field(v: &Vec<char>, i: usize, pat: &Vec<char>) -> (r: Option<(String, usize)>)
    ensures
        match r {
            Some((t, j)) => p_field(v@, i as int, pat@) == Some((t@, j as int)) && i < j <= v@.len(),
            None => p_field(v@, i as int, pat@) is None,
        },
{
    match x_lit(v, i, pat) {
        None => None,
        Some(m) => match x_qstr(v, m) {
            None => None,
            Some((t, j)) => Some((chars_to_string(&t), j)),
        },
    }
}

/// The characters of the field name `"id":`.
fn key_id_vec() -> (k: Vec<char>)
    ensures
        k@ == key_id(),
{
    let mut k: Vec<char> = Vec::new();
    k.push('"');
    k.push('i');
    k.push('d');
    k.push('"');
    k.push(':');
    proof {
        assert(k@ =~= key_id());
    }
    k
}

/// The characters of the field name `"label":`.
fn key_label_vec() -> (k: Vec<char>)
    ensures
        k@ == key_label(),
{
    let mut k: Vec<char> = Vec::new();
    k.push('"');
    k.push('l');
    k.push('a');
    k.push('b');
    k.push('e');
    k.push('l');
    k.push('"');
    k.push(':');
    proof {
        assert(k@ =~= key_label());
    }
    k
}

/// The characters of the field name `"url":`.
fn key_url_vec() -> (k: Vec<char>)
    ensures
        k@ == key_url(),
{
    let mut k: Vec<char> = Vec::new();
    k.push('"');
    k.push('u');
    k.push('r');
    k.push('l');
    k.push('"');
    k.push(':');
    proof {
        assert(k@ =~= key_url());
    }
    k
}

/// The characters of the field name `"client_id":`.
fn key_client_id_vec() -> (k: Vec<char>)
    ensures
        k@ == key_client_id(),
{
    let mut k: Vec<char> = Vec::new();
    k.push('"');
    k.push('c');
    k.push('l');
    k.push('i');
    k.push('e');
    k.push('n');
    k.push('t');
    k.push('_');
    k.push('i');
    k.push('d');
    k.push('"');
    k.push(':');
    proof {
        assert(k@ =~= key_client_id());
    }
    k
}

/// The characters of the field name `"client_secret":`.
fn key_client_secret_vec() -> (k: Vec<char>)
    ensures
        k@ == key_client_secret(),
{
    let mut k: Vec<char> = Vec::new();
    k.push('"');
    k.push('c');
    k.push('l');
    k.push('i');
    k.push('e');
    k.push('n');
    k.push('t');
    k.push('_');
    k.push('s');
    k.push('e');
    k.push('c');
    k.push('r');
    k.push('e');
    k.push('t');
    k.push('"');
    k.push(':');
    proof {
        assert(k@ =~= key_client_secret());
    }
    k
}

/// Decodes a record from its canonical text form.
pub fn decode_record(s: &str) -> (r: Option<StoredRecord>)
    ensures
        match r {
            Some(rec) => dec_record(s@) == Some(rec@),
            None => dec_record(s@) is None,
        },
{
    let v = str_to_chars(s);
    let i1 = match x_ch(&v, 0, '{') {
        None => {
            return None;
        },
        Some(j) => j,
    };
    let (id, i2) = match x_field(&v, i1, &key_id_vec()) {
        None => {
            return None;
        },
        Some(p) => p,
    };
    let i3 = match x_ch(&v, i2, ',') {
        None => {
            return None;
        },
        Some(j) => j,
    };
    let (label, i4) = match x_field(&v, i3, &key_label_vec()) {
        None => {
            return None;
        },
        Some(p) => p,
    };
    let i5 = match x_ch(&v, i4, ',') {
        None => {
            return None;
        },
        Some(j) => j,
    };
    let (url, i6) = match x_field(&v, i5, &key_url_vec()) {
        None => {
            return None;
        },
        Some(p) => p,
    };
    let i7 = match x_ch(&v, i6, ',') {
        None => {
            return None;
        },
        Some(j) => j,
    };
    let (client_id, i8) = match x_field(&v, i7, &key_client_id_vec()) {
        None => {
            return None;
        },
        Some(p) => p,
    };
    let i9 = match x_ch(&v, i8, ',') {
        None => {
            return None;
        },
        Some(j) => j,
    };
    let (client_secret, i10) = match x_field(&v, i9, &key_client_secret_vec()) {
        None => {
            return None;
        },
        Some(p) => p,
    };
    if i10 < v.len() && i10 + 1 == v.len() && v[i10] == '}' {
        Some(StoredRecord { id, label, url, client_id, client_secret })
    } else {
        None
    }
}

/// Reads one index entry at position `i`.
fn x_item(v: &Vec<char>, i: usize) -> (r: Option<(IndexItem, usize)>)
    ensures
        match r {
            Some((it, j)) => p_item(v@, i as int) == Some((it@, j as int)) && i < j <= v@.len(),
            None => p_item(v@, i as int) is None,
        },
{
    let i1 = match x_ch(v, i, '{') {
        None => {
            return None;
        },
        Some(j) => j,
    };
    let (id, i2) = match x_field(v, i1, &key_id_vec()) {
        None => {
            return None;
        },
        Some(p) => p,
    };
    let i3 = match x_ch(v, i2, ',') {
        None => {
            return None;
        },
        Some(j) => j,
    };
    let (label, i4) = match x_field(v, i3, &key_label_vec()) {
        None => {
            return None;
        },
        Some(p) => p,
    };
    match x_ch(v, i4, '}') {
        None => None,
        Some(i5) => Some((IndexItem { id, label }, i5)),
    }
}

/// Decodes the index from its canonical text form.
pub fn decode_index(s: &str) -> (r: Option<Vec<IndexItem>>)
    ensures
        match r {
            Some(items) => dec_index(s@) == Some(items.deep_view()),
            None => dec_index(s@) is None,
        },
{
    let v = str_to_chars(s);
    if v.len() == 2 && v[0] == '[' && v[1] == ']' {
        let items: Vec<IndexItem> = Vec::new();
        proof {
            assert(v@ =~= seq!['[', ']']);
            assert(items.deep_view() =~= Seq::<ItemModel>::empty());
        }
        return Some(items);
    }
    proof {
        if v@.len() == 2 {
            assert(seq!['[', ']'][0] == '[');
            assert(seq!['[', ']'][1] == ']');
        }
        assert(v@ != seq!['[', ']']);
    }
    let i1 = match x_ch(&v, 0, '[') {
        None => {
            return None;
        },
        Some(j) => j,
    };
    let mut i: usize = i1;
    let mut acc: Vec<IndexItem> = Vec::new();
    proof {
        assert(acc.deep_view() =~= Seq::<ItemModel>::empty());
    }
    loop
        invariant
            v@ == s@,
            i1 <= i,
            i <= v@.len() + 1,
            v@ != seq!['[', ']'],
            p_lit(v@, 0, seq!['[']) == Some(i1 as int),
            p_items(v@, i1 as int, Seq::empty()) == p_items(v@, i as int, acc.deep_view()),
        decreases v@.len() - i,
    {
        let (it, j) = match x_item(&v, i) {
            None => {
                return None;
            },
            Some(p) => p,
        };
        if j < v.len() && v[j] == ',' {
            let ghost acc0 = acc.deep_view();
            acc.push(it);
            proof {
                assert(acc.deep_view() =~= acc0.push(it@));
            }
            i = j + 1;
        } else if j < v.len() && j + 1 == v.len() && v[j] == ']' {
            let ghost acc0 = acc.deep_view();
            acc.push(it);
            proof {
                assert(acc.deep_view() =~= acc0.push(it@));
            }
            return Some(acc);
        } else {
            return None;
        }
    }
}

/// Scanning the escaped form of `t` up to a closing quote reads back `t`.
proof fn lemma_qstr_body_enc(pre: Seq<char>, t: Seq<char>, rest: Seq<char>, acc: Seq<char>)
    ensures
        p_qstr_body(pre + esc(t) + seq!['"'] + rest, pre.len() as int, acc) == Some(
            (acc + t, pre.len() + esc(t).len() + 1int),
        ),
    decreases t.len(),
{
    let s = pre + esc(t) + seq!['"'] + rest;
    if t.len() == 0 {
        assert(esc(t) == Seq::<char>::empty());
        assert(s =~= pre + seq!['"'] + rest);
        assert(s[pre.len() as int] == '"');
        assert(acc + t =~= acc);
    } else {
        let c = t[0];
        let t1 = t.drop_first();
        assert(esc(t) == esc_char(c) + esc(t1));
        let pre1 = pre + esc_char(c);
        assert(s =~= pre1 + esc(t1) + seq!['"'] + rest);
        lemma_qstr_body_enc(pre1, t1, rest, acc.push(c));
        if c == '"' || c == '\\' {
            assert(s[pre.len() as int] == '\\');
            assert(s[pre.len() as int + 1] == c);
            assert(p_qstr_body(s, pre.len() as int, acc) == p_qstr_body(
                s,
                pre.len() as int + 2,
                acc.push(c),
            ));
            assert(pre1.len() == pre.len() + 2);
        } else {
            assert(s[pre.len() as int] == c);
            assert(p_qstr_body(s, pre.len() as int, acc) == p_qstr_body(
                s,
                pre.len() as int + 1,
                acc.push(c),
            ));
            assert(pre1.len() == pre.len() + 1);
        }
        assert(acc.push(c) + t1 =~= acc + t);
    }
}

/// Parsing a quoted literal where the text holds `quoted(t)` reads back `t`.
proof fn lemma_qstr_enc(pre: Seq<char>, t: Seq<char>, rest: Seq<char>)
    ensures
        p_qstr(pre + quoted(t) + rest, pre.len() as int) == Some(
            (t, pre.len() + quoted(t).len() as int),
        ),
{
    let s = pre + quoted(t) + rest;
    assert(s[pre.len() as int] == '"');
    assert(s =~= (pre + seq!['"']) + esc(t) + seq!['"'] + rest);
    lemma_qstr_body_enc(pre + seq!['"'], t, rest, Seq::empty());
    assert(Seq::<char>::empty() + t =~= t);
    assert((pre + seq!['"']).len() == pre.len() + 1);
}

/// Matching fixed text against itself succeeds and steps over it.
proof fn lemma_lit_enc(pre: Seq<char>, lit: Seq<char>, rest: Seq<char>)
    ensures
        p_lit(pre + lit + rest, pre.len() as int, lit) == Some(pre.len() + lit.len() as int),
{
    let s = pre + lit + rest;
    assert(s.subrange(pre.len() as int, pre.len() as int + lit.len()) =~= lit);
}

/// Parsing a field where the text holds the field name and `quoted(t)` reads
/// back `t`.
proof fn lemma_field_enc(pre: Seq<char>, key: Seq<char>, t: Seq<char>, rest: Seq<char>)
    ensures
        p_field(pre + key + quoted(t) + rest, pre.len() as int, key) == Some(
            (t, pre.len() + key.len() + quoted(t).len() as int),
        ),
{
    let s = pre + key + quoted(t) + rest;
    assert(s =~= pre + key + (quoted(t) + rest));
    lemma_lit_enc(pre, key, quoted(t) + rest);
    assert(s =~= (pre + key) + quoted(t) + rest);
    lemma_qstr_enc(pre + key, t, rest);
    assert((pre + key).len() == pre.len() + key.len());
}

/// The text of a record up to and including the id field.
pub open spec fn rpre1(r: RecordModel) -> Seq<char> {
    seq!['{'] + key_id() + quoted(r.id)
}

/// The text of a record up to and including the label field.
pub open spec fn rpre2(r: RecordModel) -> Seq<char> {
    rpre1(r) + seq![','] + key_label() + quoted(r.label)
}

/// The text of a record up to and including the url field.
pub open spec fn rpre3(r: RecordModel) -> Seq<char> {
    rpre2(r) + seq![','] + key_url() + quoted(r.url)
}

/// The text of a record up to and including the client id field.
pub open spec fn rpre4(r: RecordModel) -> Seq<char> {
    rpre3(r) + seq![','] + key_client_id() + quoted(r.client_id)
}

/// The text of a record up to and including the client secret field.
pub open spec fn rpre5(r: RecordModel) -> Seq<char> {
    rpre4(r) + seq![','] + key_client_secret() + quoted(r.client_secret)
}

#[verifier::rlimit(100)]
#[verifier::spinoff_prover]
proof fn lemma_rec_step1(r: RecordModel)
    ensures
        p_lit(enc_record(r), 0, seq!['{']) == Some(1int),
        p_field(enc_record(r), 1, key_id()) == Some((r.id, rpre1(r).len() as int)),
{
    let s = enc_record(r);
    let tail = seq![','] + key_label() + quoted(r.label) + seq![','] + key_url() + quoted(r.url)
        + seq![','] + key_client_id() + quoted(r.client_id) + seq![','] + key_client_secret()
        + quoted(r.client_secret) + seq!['}'];
    assert(s =~= Seq::<char>::empty() + seq!['{'] + (key_id() + quoted(r.id) + tail));
    lemma_lit_enc(Seq::<char>::empty(), seq!['{'], key_id() + quoted(r.id) + tail);
    assert(s =~= seq!['{'] + key_id() + quoted(r.id) + tail);
    lemma_field_enc(seq!['{'], key_id(), r.id, tail);
}

#[verifier::rlimit(100)]
#[verifier::spinoff_prover]
proof fn lemma_rec_step2(r: RecordModel)
    ensures
        p_lit(enc_record(r), rpre1(r).len() as int, seq![',']) == Some(rpre1(r).len() + 1int),
        p_field(enc_record(r), rpre1(r).len() + 1int, key_label()) == Some(
            (r.label, rpre2(r).len() as int),
        ),
{
    let s = enc_record(r);
    let tail = seq![','] + key_url() + quoted(r.url) + seq![','] + key_client_id() + quoted(
        r.client_id,
    ) + seq![','] + key_client_secret() + quoted(r.client_secret) + seq!['}'];
    assert(s =~= rpre1(r) + seq![','] + (key_label() + quoted(r.label) + tail));
    lemma_lit_enc(rpre1(r), seq![','], key_label() + quoted(r.label) + tail);
    assert(s =~= (rpre1(r) + seq![',']) + key_label() + quoted(r.label) + tail);
    lemma_field_enc(rpre1(r) + seq![','], key_label(), r.label, tail);
    assert((rpre1(r) + seq![',']).len() == rpre1(r).len() + 1);
    assert(rpre2(r).len() == rpre1(r).len() + 1 + key_label().len() + quoted(r.label).len());
}

#[verifier::rlimit(100)]
#[verifier::spinoff_prover]
proof fn lemma_rec_step3(r: RecordModel)
    ensures
        p_lit(enc_record(r), rpre2(r).len() as int, seq![',']) == Some(rpre2(r).len() + 1int),
        p_field(enc_record(r), rpre2(r).len() + 1int, key_url()) == Some(
            (r.url, rpre3(r).len() as int),
        ),
{
    let s = enc_record(r);
    let tail = seq![','] + key_client_id() + quoted(r.client_id) + seq![','] + key_client_secret()
        + quoted(r.client_secret) + seq!['}'];
    assert(s =~= rpre2(r) + seq![','] + (key_url() + quoted(r.url) + tail));
    lemma_lit_enc(rpre2(r), seq![','], key_url() + quoted(r.url) + tail);
    assert(s =~= (rpre2(r) + seq![',']) + key_url() + quoted(r.url) + tail);
    lemma_field_enc(rpre2(r) + seq![','], key_url(), r.url, tail);
    assert((rpre2(r) + seq![',']).len() == rpre2(r).len() + 1);
    assert(rpre3(r).len() == rpre2(r).len() + 1 + key_url().len() + quoted(r.url).len());
}

#[verifier::rlimit(100)]
#[verifier::spinoff_prover]
proof fn lemma_rec_step4(r: RecordModel)
    ensures
        p_lit(enc_record(r), rpre3(r).len() as int, seq![',']) == Some(rpre3(r).len() + 1int),
        p_field(enc_record(r), rpre3(r).len() + 1int, key_client_id()) == Some(
            (r.client_id, rpre4(r).len() as int),
        ),
{
    let s = enc_record(r);
    let tail = seq![','] + key_client_secret() + quoted(r.client_secret) + seq!['}'];
    assert(s =~= rpre3(r) + seq![','] + (key_client_id() + quoted(r.client_id) + tail));
    lemma_lit_enc(rpre3(r), seq![','], key_client_id() + quoted(r.client_id) + tail);
    assert(s =~= (rpre3(r) + seq![',']) + key_client_id() + quoted(r.client_id) + tail);
    lemma_field_enc(rpre3(r) + seq![','], key_client_id(), r.client_id, tail);
    assert((rpre3(r) + seq![',']).len() == rpre3(r).len() + 1);
    assert(rpre4(r).len() == rpre3(r).len() + 1 + key_client_id().len() + quoted(
        r.client_id,
    ).len());
}

#[verifier::rlimit(100)]
#[verifier::spinoff_prover]
proof fn lemma_rec_step5(r: RecordModel)
    ensures
        p_lit(enc_record(r), rpre4(r).len() as int, seq![',']) == Some(rpre4(r).len() + 1int),
        p_field(enc_record(r), rpre4(r).len() + 1int, key_client_secret()) == Some(
            (r.client_secret, rpre5(r).len() as int),
        ),
        rpre5(r).len() == enc_record(r).len() - 1,
        enc_record(r)[rpre5(r).len() as int] == '}',
{
    let s = enc_record(r);
    let tail = seq!['}'];
    assert(s =~= rpre4(r) + seq![','] + (key_client_secret() + quoted(r.client_secret) + tail));
    lemma_lit_enc(rpre4(r), seq![','], key_client_secret() + quoted(r.client_secret) + tail);
    assert(s =~= (rpre4(r) + seq![',']) + key_client_secret() + quoted(r.client_secret) + tail);
    lemma_field_enc(rpre4(r) + seq![','], key_client_secret(), r.client_secret, tail);
    assert((rpre4(r) + seq![',']).len() == rpre4(r).len() + 1);
    assert(rpre5(r).len() == rpre4(r).len() + 1 + key_client_secret().len() + quoted(
        r.client_secret,
    ).len());
    assert(s =~= rpre5(r) + seq!['}']);
    assert(s[rpre5(r).len() as int] == '}');
}

/// Decoding the canonical encoding of a record gives the record back.
pub proof fn lemma_record_roundtrip(r: RecordModel)
    ensures
        dec_record(enc_record(r)) == Some(r),
{
    lemma_rec_step1(r);
    lemma_rec_step2(r);
    lemma_rec_step3(r);
    lemma_rec_step4(r);
    lemma_rec_step5(r);
}

/// Parsing one entry where the text holds its canonical encoding reads the
/// entry back.
#[verifier::rlimit(100)]
#[verifier::spinoff_prover]
proof fn lemma_item_enc(pre: Seq<char>, it: ItemModel, rest: Seq<char>)
    ensures
        p_item(pre + enc_item(it) + rest, pre.len() as int) == Some(
            (it, pre.len() + enc_item(it).len() as int),
        ),
{
    let s = pre + enc_item(it) + rest;
    let a0 = pre + seq!['{'];
    let a1 = a0 + key_id() + quoted(it.id);
    let a2 = a1 + seq![','];
    let a3 = a2 + key_label() + quoted(it.label);
    assert(s =~= pre + seq!['{'] + (key_id() + quoted(it.id) + seq![','] + key_label() + quoted(
        it.label,
    ) + seq!['}'] + rest));
    lemma_lit_enc(
        pre,
        seq!['{'],
        key_id() + quoted(it.id) + seq![','] + key_label() + quoted(it.label) + seq!['}'] + rest,
    );
    assert(s =~= a0 + key_id() + quoted(it.id) + (seq![','] + key_label() + quoted(it.label)
        + seq!['}'] + rest));
    lemma_field_enc(
        a0,
        key_id(),
        it.id,
        seq![','] + key_label() + quoted(it.label) + seq!['}'] + rest,
    );
    assert(s =~= a1 + seq![','] + (key_label() + quoted(it.label) + seq!['}'] + rest));
    lemma_lit_enc(a1, seq![','], key_label() + quoted(it.label) + seq!['}'] + rest);
    assert(s =~= a2 + key_label() + quoted(it.label) + (seq!['}'] + rest));
    lemma_field_enc(a2, key_label(), it.label, seq!['}'] + rest);
    assert(s =~= a3 + seq!['}'] + rest);
    lemma_lit_enc(a3, seq!['}'], rest);
    assert(a3.len() + 1 == pre.len() + enc_item(it).len());
}

/// Parsing the encoded entries up to the final bracket reads them all back.
#[verifier::rlimit(100)]
#[verifier::spinoff_prover]
proof fn lemma_items_enc(pre: Seq<char>, items: Seq<ItemModel>, acc: Seq<ItemModel>)
    requires
        items.len() > 0,
    ensures
        p_items(pre + enc_items(items) + seq![']'], pre.len() as int, acc) == Some(acc + items),
    decreases items.len(),
{
    let s = pre + enc_items(items) + seq![']'];
    let it = items[0];
    if items.len() == 1 {
        assert(enc_items(items) == enc_item(it));
        assert(s =~= pre + enc_item(it) + seq![']']);
        lemma_item_enc(pre, it, seq![']']);
        let j = pre.len() + enc_item(it).len();
        assert(s[j as int] == ']');
        assert(j == s.len() - 1);
        assert(acc + items =~= acc.push(it));
    } else {
        assert(enc_items(items) == enc_item(it) + seq![','] + enc_items(items.drop_first()));
        let pre1 = pre + enc_item(it) + seq![','];
        assert(s =~= pre + enc_item(it) + (seq![','] + enc_items(items.drop_first())
            + seq![']']));
        lemma_item_enc(pre, it, seq![','] + enc_items(items.drop_first()) + seq![']']);
        let j = pre.len() + enc_item(it).len();
        assert(s =~= pre1 + enc_items(items.drop_first()) + seq![']']);
        assert(s[j as int] == ',');
        assert(enc_item(it).len() > 0);
        assert(j < s.len());
        lemma_items_enc(pre1, items.drop_first(), acc.push(it));
        assert(acc.push(it) + items.drop_first() =~= acc + items);
        assert(pre1.len() == j + 1);
    }
}

/// Decoding the canonical encoding of an index gives its entries back.
pub proof fn lemma_index_roundtrip(items: Seq<ItemModel>)
    ensures
        dec_index(enc_index(items)) == Some(items),
{
    let s = enc_index(items);
    if items.len() == 0 {
        assert(enc_items(items) == Seq::<char>::empty());
        assert(s =~= seq!['[', ']']);
        assert(items =~= Seq::<ItemModel>::empty());
    } else {
        let it = items[0];
        assert(enc_items(items).len() >= enc_item(it).len()) by {
            if items.len() > 1 {
                assert(enc_items(items) == enc_item(it) + seq![','] + enc_items(
                    items.drop_first(),
                ));
            }
        }
        assert(enc_item(it).len() > 0);
        assert(s.len() > 2);
        assert(s != seq!['[', ']']);
        assert(s =~= Seq::<char>::empty() + seq!['['] + (enc_items(items) + seq![']']));
        lemma_lit_enc(Seq::<char>::empty(), seq!['['], enc_items(items) + seq![']']);
        assert(s =~= seq!['['] + enc_items(items) + seq![']']);
        lemma_items_enc(seq!['['], items, Seq::<ItemModel>::empty());
        assert(Seq::<ItemModel>::empty() + items =~= items);
    }
}

} // verus!
