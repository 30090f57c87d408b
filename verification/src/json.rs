//! The JSON text of a context map. The library frames objects and arrays
//! itself; strings and numbers are written by `serde_json`.
use vstd::prelude::*;
use crate::models::{ContextMap, ContextMapView, FileMap, FileMapView, Symbol, SymbolKind, SymbolView};
use crate::text::decimal;
use vstd::utf8::{encode_scalar, encode_utf8, is_ascii_chars, is_ascii_chars_encode_utf8};

verus! {

#[verifier::external_type_specification]
#[verifier::external_body]
pub struct ExJsonError(serde_json::Error);

/// A lower-case hexadecimal digit of `d < 16`.
pub open spec fn hex_digit(d: u32) -> char {
    if d < 10 {
        (('0' as u32) + d) as char
    } else {
        (('a' as u32) + d - 10) as char
    }
}

/// How `serde_json` writes one character inside a JSON string.
pub open spec fn escape_char(c: char) -> Seq<char> {
    let u = c as u32;
    if c == '"' {
        seq!['\\', '"']
    } else if c == '\\' {
        seq!['\\', '\\']
    } else if u == 0x08 {
        seq!['\\', 'b']
    } else if u == 0x09 {
        seq!['\\', 't']
    } else if u == 0x0A {
        seq!['\\', 'n']
    } else if u == 0x0C {
        seq!['\\', 'f']
    } else if u == 0x0D {
        seq!['\\', 'r']
    } else if u < 0x20 {
        seq!['\\', 'u', '0', '0', hex_digit(u / 16), hex_digit(u % 16)]
    } else {
        seq![c]
    }
}

pub open spec fn escape_chars(s: Seq<char>) -> Seq<char>
    decreases s.len(),
{
    if s.len() == 0 {
        seq![]
    } else {
        escape_chars(s.drop_last()) + escape_char(s.last())
    }
}

/// The JSON string literal of `s`.
pub open spec fn json_quote(s: Seq<char>) -> Seq<char> {
    seq!['"'] + escape_chars(s) + seq!['"']
}

/// The JSON text of an integer.
pub open spec fn json_int(i: int) -> Seq<char> {
    if i < 0 {
        seq!['-'] + decimal((-i) as nat)
    } else {
        decimal(i as nat)
    }
}

/// The JSON text of a `usize`.
pub open spec fn json_usize_text(n: usize) -> Seq<char> {
    json_int(n as int)
}

/// The JSON text of an `i64`.
pub open spec fn json_i64_text(n: i64) -> Seq<char> {
    json_int(n as int)
}

/// Calls `serde_json::to_string` on a string slice. Its result is the JSON
/// string literal of `s` as `json_quote` states it: the characters in double
/// quotes, `"` and `\` preceded by a backslash, U+0008, U+0009, U+000A,
/// U+000C and U+000D written `\b`, `\t`, `\n`, `\f`, `\r`, the other
/// characters below U+0020 written `\u00` and two lower-case hexadecimal
/// digits, every other character as it is. It writes into a vector, which
/// cannot fail, so the result is `Ok`.
#[verifier::external_body]
fn serde_str_to_string(s: &str) -> (res: Result<String, serde_json::Error>)
    ensures
        res is Ok,
        res matches Ok(t) ==> t@ == json_quote(s@),
{
    serde_json::to_string(s)
}

/// Calls `serde_json::to_string` on a `usize`: the decimal digits of `n`.
/// It writes into a vector, which cannot fail, so the result is `Ok`.
#[verifier::external_body]
fn serde_usize_to_string(n: usize) -> (res: Result<String, serde_json::Error>)
    ensures
        res is Ok,
        res matches Ok(t) ==> t@ == json_usize_text(n),
{
    serde_json::to_string(&n)
}

/// Calls `serde_json::to_string` on an `i64`: its decimal digits, after a
/// minus sign when it is negative. It writes into a vector, which cannot fail, so the
/// result is `Ok`.
#[verifier::external_body]
fn serde_i64_to_string(v: i64) -> (res: Result<String, serde_json::Error>)
    ensures
        res is Ok,
        res matches Ok(t) ==> t@ == json_i64_text(v),
{
    serde_json::to_string(&v)
}

/// The JSON string literal of `s`.
pub fn json_string(s: &str) -> (r: String)
    ensures
        r@ == json_quote(s@),
{
    match serde_str_to_string(s) {
        Ok(t) => t,
        Err(_) => String::new(),
    }
}

/// The JSON number of `n`.
pub fn json_usize(n: usize) -> (r: String)
    ensures
        r@ == json_int(n as int),
{
    match serde_usize_to_string(n) {
        Ok(t) => t,
        Err(_) => String::new(),
    }
}

/// The JSON number of `n`.
pub fn json_i64(n: i64) -> (r: String)
    ensures
        r@ == json_int(n as int),
{
    match serde_i64_to_string(n) {
        Ok(t) => t,
        Err(_) => String::new(),
    }
}

/// Items separated by commas.
pub open spec fn join(items: Seq<Seq<char>>) -> Seq<char>
    decreases items.len(),
{
    if items.len() == 0 {
        seq![]
    } else if items.len() == 1 {
        items[0]
    } else {
        join(items.drop_last()) + ","@ + items.last()
    }
}

/// The name under which a kind is written.
pub open spec fn kind_name(k: SymbolKind) -> Seq<char> {
    match k {
        SymbolKind::Class => "class"@,
        SymbolKind::Interface => "interface"@,
        SymbolKind::Type => "type"@,
        SymbolKind::Method => "method"@,
        SymbolKind::Function => "function"@,
        SymbolKind::Variable => "variable"@,
        SymbolKind::Other => "other"@,
    }
}

pub fn kind_name_str(k: SymbolKind) -> (r: &'static str)
    ensures
        r@ == kind_name(k),
{
    match k {
        SymbolKind::Class => "class",
        SymbolKind::Interface => "interface",
        SymbolKind::Type => "type",
        SymbolKind::Method => "method",
        SymbolKind::Function => "function",
        SymbolKind::Variable => "variable",
        SymbolKind::Other => "other",
    }
}

pub open spec fn signature_json(sig: Option<Seq<char>>) -> Seq<char> {
    match sig {
        Some(s) => json_quote(s),
        None => "null"@,
    }
}

/// The JSON object of a symbol: name, kind, line, signature, in this order.
pub open spec fn symbol_json(s: SymbolView) -> Seq<char> {
    "{\"name\":"@ + json_quote(s.name) + ",\"kind\":"@ + json_quote(kind_name(s.kind))
        + ",\"line\":"@ + json_int(s.line as int) + ",\"signature\":"@ + signature_json(
        s.signature,
    ) + "}"@
}

pub open spec fn symbols_json(syms: Seq<SymbolView>) -> Seq<Seq<char>> {
    syms.map_values(|s: SymbolView| symbol_json(s))
}

/// The JSON object of a file: path, then the array of its symbols.
pub open spec fn file_json(f: FileMapView) -> Seq<char> {
    "{\"path\":"@ + json_quote(f.path) + ",\"symbols\":["@ + join(symbols_json(f.symbols))
        + "]}"@
}

pub open spec fn files_json(files: Seq<FileMapView>) -> Seq<Seq<char>> {
    files.map_values(|f: FileMapView| file_json(f))
}

/// The JSON object of a map: root, then the array of its files.
pub open spec fn map_json(m: ContextMapView) -> Seq<char> {
    "{\"root\":"@ + json_quote(m.root) + ",\"files\":["@ + join(files_json(m.files)) + "]}"@
}

/// Length in bytes of the UTF-8 encoding of the JSON text of a map.
pub open spec fn json_len(m: ContextMapView) -> nat {
    encode_utf8(map_json(m)).len()
}

/// The JSON text of a symbol.
pub fn symbol_to_json(s: &Symbol) -> (r: String)
    ensures
        r@ == symbol_json(s@),
{
    let mut out = String::from_str("{\"name\":");
    out.append(json_string(s.name.as_str()).as_str());
    out.append(",\"kind\":");
    out.append(json_string(kind_name_str(s.kind)).as_str());
    out.append(",\"line\":");
    out.append(json_usize(s.line).as_str());
    out.append(",\"signature\":");
    match &s.signature {
        Some(sig) => out.append(json_string(sig.as_str()).as_str()),
        None => out.append("null"),
    }
    out.append("}");
    out
}

/// The JSON text of a file.
pub fn file_to_json(f: &FileMap) -> (r: String)
    ensures
        r@ == file_json(f@),
{
    let mut out = String::from_str("{\"path\":");
    out.append(json_string(f.path.as_str()).as_str());
    out.append(",\"symbols\":[");
    let ghost items = symbols_json(f@.symbols);
    let ghost start = out@;
    let n = f.symbols.len();
    for i in 0..n
        invariant
            n == f.symbols.len(),
            items == symbols_json(f@.symbols),
            items.len() == n,
            out@ == start + join(items.take(i as int)),
    {
        let item = symbol_to_json(&f.symbols[i]);
        proof {
            assert(item@ == items[i as int]);
            assert(items.take(i + 1).drop_last() =~= items.take(i as int));
        }
        if i > 0 {
            out.append(",");
        } else {
            assert(items.take(1) =~= seq![items[0]]);
        }
        out.append(item.as_str());
        proof {
            assert(out@ =~= start + join(items.take(i + 1)));
        }
    }
    assert(items.take(n as int) =~= items);
    out.append("]}");
    out
}

/// The JSON text of a map.
pub fn serialize_map(m: &ContextMap) -> (r: String)
    ensures
        r@ == map_json(m@),
{
    let mut out = String::from_str("{\"root\":");
    out.append(json_string(m.root.as_str()).as_str());
    out.append(",\"files\":[");
    let ghost items = files_json(m@.files);
    let ghost start = out@;
    let n = m.files.len();
    for i in 0..n
        invariant
            n == m.files.len(),
            items == files_json(m@.files),
            items.len() == n,
            out@ == start + join(items.take(i as int)),
    {
        let item = file_to_json(&m.files[i]);
        proof {
            assert(item@ == items[i as int]);
            assert(items.take(i + 1).drop_last() =~= items.take(i as int));
        }
        if i > 0 {
            out.append(",");
        } else {
            assert(items.take(1) =~= seq![items[0]]);
        }
        out.append(item.as_str());
        proof {
            assert(out@ =~= start + join(items.take(i + 1)));
        }
    }
    assert(items.take(n as int) =~= items);
    out.append("]}");
    out
}

/// Length in bytes of the JSON text of a map.
pub fn serialized_len(m: &ContextMap) -> (r: usize)
    ensures
        r == json_len(m@),
{
    let text = serialize_map(m);
    text.as_str().as_bytes().len()
}


/// The UTF-8 encoding of a concatenation is the concatenation of the encodings.
pub proof fn lemma_encode_utf8_concat(a: Seq<char>, b: Seq<char>)
    ensures
        encode_utf8(a + b) == encode_utf8(a) + encode_utf8(b),
    decreases a.len(),
{
    if a.len() == 0 {
        assert(a + b =~= b);
        assert(encode_utf8(a) + encode_utf8(b) =~= encode_utf8(b));
    } else {
        assert((a + b).drop_first() =~= a.drop_first() + b);
        assert((a + b)[0] == a[0]);
        lemma_encode_utf8_concat(a.drop_first(), b);
        assert(encode_scalar(a[0] as u32) + (encode_utf8(a.drop_first()) + encode_utf8(b))
            =~= (encode_scalar(a[0] as u32) + encode_utf8(a.drop_first())) + encode_utf8(b));
    }
}

/// Every character takes at least one byte.
pub proof fn lemma_encode_utf8_len(s: Seq<char>)
    ensures
        encode_utf8(s).len() >= s.len(),
    decreases s.len(),
{
    if s.len() > 0 {
        lemma_encode_utf8_len(s.drop_first());
    }
}

/// An ASCII text takes one byte per character.
proof fn lemma_ascii_len(s: Seq<char>)
    requires
        is_ascii_chars(s),
    ensures
        encode_utf8(s).len() == s.len(),
{
    is_ascii_chars_encode_utf8(s);
}

/// The JSON of a map without files takes twenty bytes besides its root's
/// string literal, which takes at least two.
pub proof fn lemma_empty_map_len(root: Seq<char>)
    ensures
        json_len(ContextMapView { root, files: Seq::empty() }) == 20 + encode_utf8(json_quote(root)).len(),
        encode_utf8(json_quote(root)).len() >= 2,
        root.len() == 0 ==> json_len(ContextMapView { root, files: Seq::empty() }) == 22,
{
    let m = ContextMapView { root, files: Seq::empty() };
    reveal_strlit("{\"root\":");
    reveal_strlit(",\"files\":[");
    reveal_strlit("]}");
    let a = "{\"root\":"@;
    let b = ",\"files\":["@;
    let c = "]}"@;
    assert(files_json(m.files) =~= Seq::<Seq<char>>::empty());
    assert(join(files_json(m.files)) =~= Seq::<char>::empty());
    let q = json_quote(root);
    assert(map_json(m) =~= a + q + b + c);
    assert(is_ascii_chars(a));
    assert(is_ascii_chars(b));
    assert(is_ascii_chars(c));
    lemma_ascii_len(a);
    lemma_ascii_len(b);
    lemma_ascii_len(c);
    lemma_encode_utf8_concat(a + q + b, c);
    lemma_encode_utf8_concat(a + q, b);
    lemma_encode_utf8_concat(a, q);
    lemma_encode_utf8_len(q);
    if root.len() == 0 {
        assert(escape_chars(root) =~= Seq::<char>::empty());
        assert(q =~= seq!['"', '"']);
        assert(is_ascii_chars(q));
        lemma_ascii_len(q);
    }
}


/// The bytes of all items.
pub open spec fn bytes_total(items: Seq<Seq<char>>) -> nat
    decreases items.len(),
{
    if items.len() == 0 {
        0
    } else {
        bytes_total(items.drop_last()) + encode_utf8(items.last()).len()
    }
}

/// Items joined by commas take their bytes and one per comma.
pub proof fn lemma_join_len(items: Seq<Seq<char>>)
    ensures
        encode_utf8(join(items)).len() == bytes_total(items) + (if items.len() > 0 {
            items.len() - 1
        } else {
            0
        }),
    decreases items.len(),
{
    if items.len() == 1 {
        assert(items.drop_last() =~= Seq::<Seq<char>>::empty());
        assert(bytes_total(items.drop_last()) == 0);
        assert(items.last() == items[0]);
    } else if items.len() >= 2 {
        let d = items.drop_last();
        lemma_join_len(d);
        assert(join(items) == join(d) + ","@ + items.last());
        reveal_strlit(",");
        assert(is_ascii_chars(","@));
        lemma_ascii_len(","@);
        lemma_encode_utf8_concat(join(d) + ","@, items.last());
        lemma_encode_utf8_concat(join(d), ","@);
    }
}

/// Replacing one item changes the total by the difference of their bytes.
pub proof fn lemma_bytes_total_update(items: Seq<Seq<char>>, i: int, y: Seq<char>)
    requires
        0 <= i < items.len(),
    ensures
        bytes_total(items.update(i, y)) + encode_utf8(items[i]).len() == bytes_total(items)
            + encode_utf8(y).len(),
    decreases items.len(),
{
    let u = items.update(i, y);
    if i == items.len() - 1 {
        assert(u.drop_last() =~= items.drop_last());
    } else {
        lemma_bytes_total_update(items.drop_last(), i, y);
        assert(u.drop_last() =~= items.drop_last().update(i, y));
    }
}

/// The bytes of a map's JSON: twenty, its root's literal, and its files.
pub proof fn lemma_map_json_len(m: ContextMapView)
    ensures
        json_len(m) == 20 + encode_utf8(json_quote(m.root)).len() + encode_utf8(
            join(files_json(m.files)),
        ).len(),
{
    reveal_strlit("{\"root\":");
    reveal_strlit(",\"files\":[");
    reveal_strlit("]}");
    let a = "{\"root\":"@;
    let b = ",\"files\":["@;
    let c = "]}"@;
    let q = json_quote(m.root);
    let j = join(files_json(m.files));
    assert(is_ascii_chars(a));
    assert(is_ascii_chars(b));
    assert(is_ascii_chars(c));
    lemma_ascii_len(a);
    lemma_ascii_len(b);
    lemma_ascii_len(c);
    lemma_encode_utf8_concat(a + q + b + j, c);
    lemma_encode_utf8_concat(a + q + b, j);
    lemma_encode_utf8_concat(a + q, b);
    lemma_encode_utf8_concat(a, q);
}

/// The bytes of a file's JSON: twenty-two, its path's literal, and its
/// symbols.
pub proof fn lemma_file_json_len(f: FileMapView)
    ensures
        encode_utf8(file_json(f)).len() == 22 + encode_utf8(json_quote(f.path)).len() + encode_utf8(
            join(symbols_json(f.symbols)),
        ).len(),
{
    reveal_strlit("{\"path\":");
    reveal_strlit(",\"symbols\":[");
    reveal_strlit("]}");
    let a = "{\"path\":"@;
    let b = ",\"symbols\":["@;
    let c = "]}"@;
    let q = json_quote(f.path);
    let j = join(symbols_json(f.symbols));
    assert(is_ascii_chars(a));
    assert(is_ascii_chars(b));
    assert(is_ascii_chars(c));
    lemma_ascii_len(a);
    lemma_ascii_len(b);
    lemma_ascii_len(c);
    lemma_encode_utf8_concat(a + q + b + j, c);
    lemma_encode_utf8_concat(a + q + b, j);
    lemma_encode_utf8_concat(a + q, b);
    lemma_encode_utf8_concat(a, q);
}

/// A symbol's JSON takes at least one byte.
pub proof fn lemma_symbol_json_nonempty(s: SymbolView)
    ensures
        encode_utf8(symbol_json(s)).len() >= 1,
{
    reveal_strlit("}");
    lemma_encode_utf8_len(symbol_json(s));
}


/// Taking one item out removes its bytes from the total.
pub proof fn lemma_bytes_total_remove(items: Seq<Seq<char>>, k: int)
    requires
        0 <= k < items.len(),
    ensures
        bytes_total(items) == bytes_total(items.remove(k)) + encode_utf8(items[k]).len(),
    decreases items.len(),
{
    let r = items.remove(k);
    if k == items.len() - 1 {
        assert(r =~= items.drop_last());
    } else {
        lemma_bytes_total_remove(items.drop_last(), k);
        assert(r.drop_last() =~= items.drop_last().remove(k));
        assert(r.last() == items.last());
    }
}

/// Items that are a reordering of others, each as long in bytes as the one
/// it is drawn from, take as many bytes in all: item `k` of `y` stands for
/// item `order[k]` of `x`, and `order` names each index of `x` once.
pub proof fn lemma_bytes_total_permuted(x: Seq<Seq<char>>, y: Seq<Seq<char>>, order: Seq<usize>)
    requires
        x.len() <= usize::MAX,
        x.len() == y.len(),
        order.len() == y.len(),
        forall|k: int| 0 <= k < order.len() ==> #[trigger] order[k] < x.len(),
        forall|a: int, b: int| 0 <= a < b < order.len() ==> #[trigger] order[a] != #[trigger] order[b],
        forall|i: int| 0 <= i < x.len() ==> order.contains(#[trigger] (i as usize)),
        forall|k: int| 0 <= k < y.len() ==> encode_utf8(#[trigger] y[k]).len() == encode_utf8(
            x[order[k] as int],
        ).len(),
    ensures
        bytes_total(x) == bytes_total(y),
    decreases x.len(),
{
    let n = x.len();
    if n > 0 {
        let last = (n - 1) as usize;
        assert(order.contains(last));
        let k = choose|k: int| 0 <= k < order.len() && order[k] == last;
        let (x2, y2, o2) = (x.drop_last(), y.remove(k), order.remove(k));
        assert forall|j: int| 0 <= j < o2.len() implies #[trigger] o2[j] < x2.len() by {
            let jj = if j < k { j } else { j + 1 };
            assert(o2[j] == order[jj]);
            if jj < k {
                assert(order[jj] != order[k]);
            } else {
                assert(order[k] != order[jj]);
            }
        }
        assert forall|a: int, b: int| 0 <= a < b < o2.len() implies #[trigger] o2[a] != #[trigger] o2[b] by {
            let aa = if a < k { a } else { a + 1 };
            let bb = if b < k { b } else { b + 1 };
            assert(o2[a] == order[aa] && o2[b] == order[bb]);
            assert(aa < bb);
        }
        assert forall|i: int| 0 <= i < x2.len() implies o2.contains(#[trigger] (i as usize)) by {
            assert(order.contains(i as usize));
            let m = choose|m: int| 0 <= m < order.len() && order[m] == i as usize;
            assert(order[m] != last);
            if m < k {
                assert(o2[m] == i as usize);
            } else {
                assert(o2[m - 1] == i as usize);
            }
        }
        assert forall|j: int| 0 <= j < y2.len() implies encode_utf8(#[trigger] y2[j]).len() == encode_utf8(
            x2[o2[j] as int],
        ).len() by {
            let jj = if j < k { j } else { j + 1 };
            assert(y2[j] == y[jj] && o2[j] == order[jj]);
            assert(x2[o2[j] as int] == x[order[jj] as int]);
        }
        lemma_bytes_total_permuted(x2, y2, o2);
        lemma_bytes_total_remove(y, k);
    }
}


/// Joining two non-empty lists of items is joining each and putting a comma
/// between them; a single item is itself and no item is nothing. So every
/// item after the first is preceded by exactly one comma.
pub proof fn law_join(a: Seq<Seq<char>>, b: Seq<Seq<char>>, x: Seq<char>)
    ensures
        join(Seq::<Seq<char>>::empty()) == Seq::<char>::empty(),
        join(seq![x]) == x,
        a.len() > 0 && b.len() > 0 ==> join(a + b) == join(a) + ","@ + join(b),
    decreases b.len(),
{
    if a.len() > 0 && b.len() > 0 {
        if b.len() == 1 {
            assert((a + b).drop_last() =~= a);
            assert((a + b).last() == b[0]);
        } else {
            let d = b.drop_last();
            law_join(a, d, x);
            assert((a + b).drop_last() =~= a + d);
            assert((a + b).last() == b.last());
            assert(join(b) == join(d) + ","@ + b.last());
        }
    }
}

} // verus!
