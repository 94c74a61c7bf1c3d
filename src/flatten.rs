//! A parsed locale document and its flattening into dotted key paths.
use vstd::prelude::*;
use crate::strmap::StrMap;

verus! {

/// A node of a structured document, whatever syntax it was read from.
/// A number carries its canonical text: integers in decimal, other numbers
/// in the shortest form that reads back to the same value (as serde_json
/// writes them).
pub enum Doc {
    Object(Vec<(String, Doc)>),
    Str(String),
    Num(String),
    Bool(bool),
    Null,
    Array,
}

/// The path of child `k` under `p`: `p.k`, or `k` at the top level.
pub open spec fn child_path(p: Seq<char>, k: Seq<char>) -> Seq<char> {
    if p.len() == 0 {
        k
    } else {
        p + seq!['.'] + k
    }
}

pub open spec fn field_count(d: Doc) -> nat {
    match d {
        Doc::Object(fields) => fields@.len(),
        _ => 0,
    }
}

pub open spec fn bool_text(b: bool) -> Seq<char> {
    if b {
        seq!['t', 'r', 'u', 'e']
    } else {
        seq!['f', 'a', 'l', 's', 'e']
    }
}

/// Adds a leaf at path `p`, unless `p` is empty.
pub open spec fn put_leaf(p: Seq<char>, v: Seq<char>, m: Map<Seq<char>, Seq<char>>) -> Map<Seq<char>, Seq<char>> {
    if p.len() == 0 {
        m
    } else {
        m.insert(p, v)
    }
}

/// `m` after adding the entries of `d` found under path `p`; a later entry
/// replaces an earlier one with the same path.
pub open spec fn flatten_into(p: Seq<char>, d: Doc, m: Map<Seq<char>, Seq<char>>) -> Map<Seq<char>, Seq<char>>
    decreases d, field_count(d) + 1,
{
    match d {
        Doc::Object(_) => flatten_fields(p, d, field_count(d), m),
        Doc::Str(s) => put_leaf(p, s@, m),
        Doc::Num(s) => put_leaf(p, s@, m),
        Doc::Bool(b) => put_leaf(p, bool_text(b), m),
        Doc::Null => m,
        Doc::Array => m,
    }
}

/// `m` after adding the first `n` fields of object `d`, in order.
pub open spec fn flatten_fields(p: Seq<char>, d: Doc, n: nat, m: Map<Seq<char>, Seq<char>>) -> Map<Seq<char>, Seq<char>>
    decreases d, n,
{
    match d {
        Doc::Object(fields) => {
            if n == 0 || n > fields@.len() {
                m
            } else {
                let f = fields@[n - 1];
                flatten_into(child_path(p, f.0@), f.1, flatten_fields(p, d, (n - 1) as nat, m))
            }
        },
        _ => m,
    }
}

/// The flat map of a document.
pub open spec fn flat_view(d: Doc) -> Map<Seq<char>, Seq<char>> {
    flatten_into(Seq::empty(), d, Map::empty())
}

fn child_path_exec(p: &str, k: &str) -> (r: String)
    ensures
        r@ == child_path(p@, k@),
{
    if p.unicode_len() == 0 {
        k.to_string()
    } else {
        let r = p.to_string().concat(".").concat(k);
        proof {
            reveal_strlit(".");
        }
        r
    }
}

fn flatten_rec(p: &str, d: &Doc, out: &mut StrMap)
    requires
        old(out).wf(),
    ensures
        final(out).wf(),
        final(out).view() == flatten_into(p@, *d, old(out).view()),
    decreases d,
{
    match d {
        Doc::Object(fields) => {
            let ghost start = out.view();
            let mut i: usize = 0;
            while i < fields.len()
                invariant
                    out.wf(),
                    i <= fields@.len(),
                    *d == Doc::Object(*fields),
                    out.view() == flatten_fields(p@, *d, i as nat, start),
                decreases fields@.len() - i,
            {
                let child = child_path_exec(p, fields[i].0.as_str());
                proof {
                    assert(decreases_to!(*d => fields@[i as int].1));
                }
                flatten_rec(child.as_str(), &fields[i].1, out);
                i = i + 1;
            }
        },
        Doc::Str(s) => {
            if p.unicode_len() > 0 {
                out.insert(p.to_string(), s.clone());
            }
        },
        Doc::Num(s) => {
            if p.unicode_len() > 0 {
                out.insert(p.to_string(), s.clone());
            }
        },
        Doc::Bool(b) => {
            if p.unicode_len() > 0 {
                let t = if *b { "true".to_string() } else { "false".to_string() };
                proof {
                    reveal_strlit("true");
                    reveal_strlit("false");
                    assert(t@ == bool_text(*b));
                }
                out.insert(p.to_string(), t);
            }
        },
        Doc::Null => {},
        Doc::Array => {},
    }
}

/// Flattens a document: each string, number or boolean leaf under a
/// non-empty path becomes an entry keyed by its dotted path.
pub fn flatten(d: &Doc) -> (r: StrMap)
    ensures
        r.wf(),
        r.view() == flat_view(*d),
{
    let mut r = StrMap::new();
    flatten_rec("", d, &mut r);
    proof {
        reveal_strlit("");
        assert(""@ =~= Seq::<char>::empty());
    }
    r
}


/// Every field of object `d` holds a string under a non-empty key.
pub open spec fn is_flat_object(d: Doc) -> bool {
    match d {
        Doc::Object(fields) => forall|i: int|
            0 <= i < fields@.len() ==> (#[trigger] fields@[i]).0@.len() > 0 && fields@[i].1 is Str,
        _ => false,
    }
}

/// The first `n` fields of `d` as a map, a later field replacing an earlier
/// one with the same key.
pub open spec fn fields_map(d: Doc, n: nat) -> Map<Seq<char>, Seq<char>>
    decreases n,
{
    match d {
        Doc::Object(fields) => {
            if n == 0 || n > fields@.len() {
                Map::empty()
            } else {
                fields_map(d, (n - 1) as nat).insert(fields@[n - 1].0@, fields@[n - 1].1->Str_0@)
            }
        },
        _ => Map::empty(),
    }
}

proof fn lemma_flat_fields(d: Doc, n: nat)
    requires
        is_flat_object(d),
        n <= field_count(d),
    ensures
        flatten_fields(Seq::empty(), d, n, Map::empty()) == fields_map(d, n),
    decreases n,
{
    if n > 0 {
        lemma_flat_fields(d, (n - 1) as nat);
        if let Doc::Object(fields) = d {
            let f = fields@[n - 1];
            assert(f.0@.len() > 0 && f.1 is Str);
            assert(child_path(Seq::empty(), f.0@) == f.0@);
            let prev = flatten_fields(Seq::empty(), d, (n - 1) as nat, Map::empty());
            assert(flatten_into(f.0@, f.1, prev) == prev.insert(f.0@, f.1->Str_0@));
        }
    }
}

/// Flattening a single-level document of strings gives back its own
/// key-value pairs.
pub proof fn law_flat_document_unchanged(d: Doc)
    requires
        is_flat_object(d),
    ensures
        flat_view(d) == fields_map(d, field_count(d)),
{
    lemma_flat_fields(d, field_count(d));
}

} // verus!
