//! JSON documents of the shapes that answers and requests have: records and
//! lists of records, two levels deep.

use serde_json::from_slice;
use serde_json::Value::{
    Array as JsonArray, Bool as JsonBool, Null as JsonNull, Number as JsonNumber,
    Object as JsonObject, String as JsonString,
};
use vstd::prelude::*;

use crate::text::{chars_of, same};

use self::Atom::{Bool, Fields, Items, Null, Number, Text};
use self::Doc::{List, Single, Table};
use self::Item::{Plain, Record};

verus! {

/// A value whose own parts do not matter.
#[derive(Debug, PartialEq, Eq)]
pub enum Atom {
    Null,
    Bool(bool),
    /// A number, with the unsigned 64-bit integer that it is, if it is one.
    Number(Option<u64>),
    Text(String),
    Items,
    Fields,
}

/// A value one level down.
#[derive(Debug, PartialEq, Eq)]
pub enum Item {
    Record(Vec<(String, Atom)>),
    Plain(Atom),
}

/// A document.
#[derive(Debug, PartialEq, Eq)]
pub enum Doc {
    Table(Vec<(String, Item)>),
    List(Vec<Item>),
    Single(Atom),
}

/// What an atom is.
pub ghost enum AtomSpec {
    Null,
    Bool(bool),
    Number(Option<u64>),
    Text(Seq<char>),
    Items,
    Fields,
}

/// What an item is.
pub ghost enum ItemSpec {
    Record(Seq<(Seq<char>, AtomSpec)>),
    Plain(AtomSpec),
}

/// What a document is.
pub ghost enum DocSpec {
    Table(Seq<(Seq<char>, ItemSpec)>),
    List(Seq<ItemSpec>),
    Single(AtomSpec),
}

impl View for Atom {
    type V = AtomSpec;

    open spec fn view(&self) -> AtomSpec {
        match *self {
            Atom::Null => AtomSpec::Null,
            Atom::Bool(b) => AtomSpec::Bool(b),
            Atom::Number(n) => AtomSpec::Number(n),
            Atom::Text(s) => AtomSpec::Text(s@),
            Atom::Items => AtomSpec::Items,
            Atom::Fields => AtomSpec::Fields,
        }
    }
}

/// What the fields of a record are.
pub open spec fn atom_fields(v: Seq<(String, Atom)>) -> Seq<(Seq<char>, AtomSpec)> {
    Seq::new(v.len(), |i: int| (v[i].0@, v[i].1@))
}

impl View for Item {
    type V = ItemSpec;

    open spec fn view(&self) -> ItemSpec {
        match *self {
            Item::Record(v) => ItemSpec::Record(atom_fields(v@)),
            Item::Plain(a) => ItemSpec::Plain(a@),
        }
    }
}

/// What the fields of a document are.
pub open spec fn item_fields(v: Seq<(String, Item)>) -> Seq<(Seq<char>, ItemSpec)> {
    Seq::new(v.len(), |i: int| (v[i].0@, v[i].1@))
}

/// What the items of a list are.
pub open spec fn item_views(v: Seq<Item>) -> Seq<ItemSpec> {
    Seq::new(v.len(), |i: int| v[i]@)
}

impl View for Doc {
    type V = DocSpec;

    open spec fn view(&self) -> DocSpec {
        match *self {
            Doc::Table(v) => DocSpec::Table(item_fields(v@)),
            Doc::List(v) => DocSpec::List(item_views(v@)),
            Doc::Single(a) => DocSpec::Single(a@),
        }
    }
}

/// `serde_json::Error`: why bytes are no JSON.
#[verifier::external_type_specification]
#[verifier::external_body]
pub struct ExJsonError(serde_json::Error);

/// What a document is, where there is one.
pub open spec fn doc_view(d: Result<Doc, serde_json::Error>) -> Option<DocSpec> {
    match d {
        Ok(d) => Some(d@),
        Err(_) => None,
    }
}

/// What `serde_json::from_slice` reads from bytes, down to the second level;
/// `None` where it fails.
pub uninterp spec fn json_in(bytes: Seq<u8>) -> Option<DocSpec>;

/// `serde_json::from_slice` into a `serde_json::Value`, of which the levels below
/// the second are dropped. The result depends on the bytes alone; which bytes are
/// read as what is left unsaid.
#[verifier::external_body]
pub(crate) fn read_json(bytes: &[u8]) -> (r: Result<Doc, serde_json::Error>)
    ensures
        doc_view(r) == json_in(bytes@),
{
    let atom = |v| match v {
        JsonNull => Null,
        JsonBool(b) => Bool(b),
        JsonNumber(n) => Number(n.as_u64()),
        JsonString(s) => Text(s),
        JsonArray(_) => Items,
        JsonObject(_) => Fields };
    let item = |v| match v {
        JsonObject(m) => Record(m.into_iter().map(|(k, v)| (k, atom(v))).collect()),
        v => Plain(atom(v)) };
    Ok(match from_slice(bytes)? {
        JsonObject(m) => Table(m.into_iter().map(|(k, v)| (k, item(v))).collect()),
        JsonArray(a) => List(a.into_iter().map(item).collect()),
        v => Single(atom(v)) })
}

/// The value of the first field that is named `key`.
pub open spec fn field_of(v: Seq<(Seq<char>, AtomSpec)>, key: Seq<char>, i: int) -> Option<AtomSpec>
    decreases v.len() - i,
{
    if i >= v.len() {
        None
    } else if v[i].0 == key {
        Some(v[i].1)
    } else {
        field_of(v, key, i + 1)
    }
}

/// The value of the first field that is named `key`.
pub fn find_field<'a>(v: &'a [(String, Atom)], key: &str) -> (r: Option<&'a Atom>)
    ensures
        match (r, field_of(atom_fields(v@), key@, 0)) {
            (Some(a), Some(s)) => a@ == s,
            (None, None) => true,
            _ => false,
        },
{
    let ghost all = atom_fields(v@);
    let k = chars_of(key);
    for i in 0..v.len()
        invariant
            all == atom_fields(v@),
            k@ == key@,
            field_of(all, key@, 0) == field_of(all, key@, i as int),
    {
        assert(all[i as int] == (v@[i as int].0@, v@[i as int].1@));
        let own = chars_of(v[i].0.as_str());
        if same(own.as_slice(), k.as_slice()) {
            return Some(&v[i].1);
        }
    }
    None
}

/// The text, if the value is one.
pub open spec fn text_in(a: Option<AtomSpec>) -> Option<Seq<char>> {
    match a {
        Some(AtomSpec::Text(s)) => Some(s),
        _ => None,
    }
}

/// The number, or zero.
pub open spec fn number_in(a: Option<AtomSpec>) -> u64 {
    match a {
        Some(AtomSpec::Number(Some(n))) => n,
        _ => 0,
    }
}

/// The pairs in the first `n` items: of every record that has a text under
/// `text_key` this text, and the number under `number_key`.
pub open spec fn pairs_upto(
    v: Seq<ItemSpec>,
    text_key: Seq<char>,
    number_key: Seq<char>,
    n: int,
) -> Seq<(Seq<char>, u64)>
    decreases n,
{
    if n <= 0 {
        seq![]
    } else {
        let rest = pairs_upto(v, text_key, number_key, n - 1);
        match v[n - 1] {
            ItemSpec::Record(f) => match text_in(field_of(f, text_key, 0)) {
                Some(s) => rest.push((s, number_in(field_of(f, number_key, 0)))),
                None => rest,
            },
            ItemSpec::Plain(_) => rest,
        }
    }
}

/// The pairs in a list of records; `None` where the document is no list.
pub open spec fn pairs_of(
    d: DocSpec,
    text_key: Seq<char>,
    number_key: Seq<char>,
) -> Option<Seq<(Seq<char>, u64)>> {
    match d {
        DocSpec::List(v) => Some(pairs_upto(v, text_key, number_key, v.len() as int)),
        _ => None,
    }
}

/// What pairs are.
pub open spec fn pair_views(v: Seq<(String, u64)>) -> Seq<(Seq<char>, u64)> {
    Seq::new(v.len(), |i: int| (v[i].0@, v[i].1))
}

/// The pairs in a list of records.
pub fn pairs_in(d: &Doc, text_key: &str, number_key: &str) -> (r: Option<Vec<(String, u64)>>)
    ensures
        match (r, pairs_of(d@, text_key@, number_key@)) {
            (Some(v), Some(s)) => pair_views(v@) == s,
            (None, None) => true,
            _ => false,
        },
{
    match d {
        Doc::List(items) => {
            let ghost all = item_views(items@);
            let mut out: Vec<(String, u64)> = Vec::new();
            assert(pair_views(out@) =~= seq![]);
            for i in 0..items.len()
                invariant
                    all == item_views(items@),
                    pair_views(out@) == pairs_upto(all, text_key@, number_key@, i as int),
            {
                assert(all[i as int] == items@[i as int]@);
                if let Item::Record(fields) = &items[i] {
                    if let Some(Atom::Text(s)) = find_field(fields.as_slice(), text_key) {
                        let n: u64 = match find_field(fields.as_slice(), number_key) {
                            Some(Atom::Number(Some(n))) => *n,
                            _ => 0,
                        };
                        let ghost before = out@;
                        out.push((s.clone(), n));
                        assert(pair_views(out@) =~= pair_views(before).push((s@, n)));
                    }
                }
            }
            Some(out)
        },
        _ => None,
    }
}

/// Why an answer is of no use.
#[derive(Debug, Clone, Copy, PartialEq, Eq, Structural)]
pub enum AnswerError {
    /// It is no JSON.
    NotJson,
    /// It is no list.
    UnexpectedShape,
}

/// The pairs in an answer: bytes of a JSON list of records.
pub open spec fn answer_pairs(
    bytes: Seq<u8>,
    text_key: Seq<char>,
    number_key: Seq<char>,
) -> Result<Seq<(Seq<char>, u64)>, AnswerError> {
    match json_in(bytes) {
        None => Err(AnswerError::NotJson),
        Some(d) => match pairs_of(d, text_key, number_key) {
            None => Err(AnswerError::UnexpectedShape),
            Some(v) => Ok(v),
        },
    }
}

fn read_pairs(bytes: &[u8], text_key: &str, number_key: &str) -> (r: Result<
    Vec<(String, u64)>,
    AnswerError,
>)
    ensures
        match (r, answer_pairs(bytes@, text_key@, number_key@)) {
            (Ok(v), Ok(s)) => pair_views(v@) == s,
            (Err(e), Err(f)) => e == f,
            _ => false,
        },
{
    match read_json(bytes) {
        Err(_) => Err(AnswerError::NotJson),
        Ok(d) => match pairs_in(&d, text_key, number_key) {
            None => Err(AnswerError::UnexpectedShape),
            Some(v) => Ok(v),
        },
    }
}

/// The files of a repository, as the answer to a listing gives them: paths, and
/// sizes or zero.
pub fn repo_entries(answer: &[u8]) -> (r: Result<Vec<(String, u64)>, AnswerError>)
    ensures
        match (r, answer_pairs(answer@, "path"@, "size"@)) {
            (Ok(v), Ok(s)) => pair_views(v@) == s,
            (Err(e), Err(f)) => e == f,
            _ => false,
        },
{
    read_pairs(answer, "path", "size")
}

/// The repositories that the answer to a search gives: ids, and downloads or
/// zero.
pub fn popular_repos(answer: &[u8]) -> (r: Result<Vec<(String, u64)>, AnswerError>)
    ensures
        match (r, answer_pairs(answer@, "id"@, "downloads"@)) {
            (Ok(v), Ok(s)) => pair_views(v@) == s,
            (Err(e), Err(f)) => e == f,
            _ => false,
        },
{
    read_pairs(answer, "id", "downloads")
}

/// Of several fields of one name the first counts.
pub proof fn the_first_field_counts(
    v: Seq<(Seq<char>, AtomSpec)>,
    key: Seq<char>,
    i: int,
    j: int,
)
    requires
        0 <= i <= j < v.len(),
        v[j].0 == key,
        forall|k: int| i <= k < j ==> (#[trigger] v[k]).0 != key,
    ensures
        field_of(v, key, i) == Some(v[j].1),
    decreases j - i,
{
    if i < j {
        the_first_field_counts(v, key, i + 1, j);
    }
}

/// Without a field of the name there is no value.
pub proof fn missing_fields_have_no_value(v: Seq<(Seq<char>, AtomSpec)>, key: Seq<char>, i: int)
    requires
        0 <= i,
        forall|k: int| i <= k < v.len() ==> (#[trigger] v[k]).0 != key,
    ensures
        field_of(v, key, i) is None,
    decreases v.len() - i,
{
    if i < v.len() {
        missing_fields_have_no_value(v, key, i + 1);
    }
}

proof fn same_pairs(v: Seq<ItemSpec>, w: Seq<ItemSpec>, a: Seq<char>, b: Seq<char>, n: int)
    requires
        0 <= n <= v.len(),
        n <= w.len(),
        forall|i: int| 0 <= i < n ==> #[trigger] v[i] == w[i],
    ensures
        pairs_upto(v, a, b, n) == pairs_upto(w, a, b, n),
    decreases n,
{
    if n > 0 {
        same_pairs(v, w, a, b, n - 1);
        assert(v[n - 1] == w[n - 1]);
    }
}

/// Each further record of a list adds the pair of its text and its number, zero where
/// it has none. A record without the text, and what is no record, add nothing.
pub proof fn records_add_their_pairs(
    v: Seq<ItemSpec>,
    f: Seq<(Seq<char>, AtomSpec)>,
    x: AtomSpec,
    a: Seq<char>,
    b: Seq<char>,
    s: Seq<char>,
    n: u64,
)
    ensures
        ({
            let l = pairs_of(DocSpec::List(v), a, b);
            let w = pairs_of(DocSpec::List(v.push(ItemSpec::Record(f))), a, b);
            let p = pairs_of(DocSpec::List(v.push(ItemSpec::Plain(x))), a, b);
            let text = field_of(f, a, 0) == Some(AtomSpec::Text(s));
            &&& l is Some && w is Some
            &&& p == l
            &&& text && field_of(f, b, 0) == Some(AtomSpec::Number(Some(n))) ==> w->0 == l->0.push(
                (s, n),
            )
            &&& text && field_of(f, b, 0) is None ==> w->0 == l->0.push((s, 0))
            &&& field_of(f, a, 0) is None ==> w == l
            &&& pairs_of(DocSpec::List(seq![]), a, b) == Some(Seq::<(Seq<char>, u64)>::empty())
            &&& pairs_of(DocSpec::Single(x), a, b) is None
        }),
{
    let m = v.len() as int;
    let (r, q) = (v.push(ItemSpec::Record(f)), v.push(ItemSpec::Plain(x)));
    same_pairs(v, r, a, b, m);
    same_pairs(v, q, a, b, m);
    assert(r[m] == ItemSpec::Record(f));
    assert(q[m] == ItemSpec::Plain(x));
}

} // verus!
