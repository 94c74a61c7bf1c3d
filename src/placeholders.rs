//! Placeholder names: the `name` of each `{name}` in a text, where a name is
//! one or more ASCII letters, digits or underscores.
use vstd::prelude::*;
use crate::strmap::{key_lt, lemma_key_lt_irreflexive, lemma_key_lt_transitive, StrMap};

verus! {

pub open spec fn is_name_char(c: char) -> bool {
    ('a' <= c && c <= 'z') || ('A' <= c && c <= 'Z') || ('0' <= c && c <= '9') || c == '_'
}

/// `s[i]` opens and `s[j]` closes a placeholder whose name is `s[i+1..j]`.
pub open spec fn placeholder_at(s: Seq<char>, i: int, j: int) -> bool {
    &&& 0 <= i
    &&& i + 1 < j
    &&& j < s.len()
    &&& s[i] == '{'
    &&& s[j] == '}'
    &&& forall|k: int| i < k < j ==> is_name_char(#[trigger] s[k])
}

/// Names of the placeholders that open before position `b`.
pub open spec fn placeholders_before(s: Seq<char>, b: int) -> Set<Seq<char>> {
    Set::new(
        |n: Seq<char>|
            exists|i: int, j: int| #[trigger] placeholder_at(s, i, j) && i < b && n == s.subrange(i + 1, j),
    )
}

/// The set of placeholder names in `s`.
pub open spec fn placeholders(s: Seq<char>) -> Set<Seq<char>> {
    placeholders_before(s, s.len() as int)
}

fn is_name_char_exec(c: char) -> (r: bool)
    ensures
        r == is_name_char(c),
{
    ('a' <= c && c <= 'z') || ('A' <= c && c <= 'Z') || ('0' <= c && c <= '9') || c == '_'
}

/// Collects the placeholder names of `s` as the keys of a map (all values
/// empty).
pub fn extract_placeholders(s: &str) -> (r: StrMap)
    ensures
        r.wf(),
        r.view().dom() == placeholders(s@),
{
    let n = s.unicode_len();
    let mut r = StrMap::new();
    let mut i: usize = 0;
    assert(r.view().dom() =~= placeholders_before(s@, 0));
    while i < n
        invariant
            n == s@.len(),
            i <= n,
            r.wf(),
            r.view().dom() == placeholders_before(s@, i as int),
        decreases n - i,
    {
        if s.get_char(i) == '{' {
            let mut j: usize = i + 1;
            while j < n && is_name_char_exec(s.get_char(j))
                invariant
                    n == s@.len(),
                    i < j <= n,
                    s@[i as int] == '{',
                    forall|k: int| i < k < j ==> is_name_char(#[trigger] s@[k]),
                decreases n - j,
            {
                j = j + 1;
            }
            let ghost before = r.view().dom();
            let found = j < n && j > i + 1 && s.get_char(j) == '}';
            if found {
                let name = s.substring_char(i + 1, j);
                r.insert(name.to_string(), String::new());
            }
            proof {
                let after = placeholders_before(s@, j as int);
                assert forall|nm: Seq<char>| #[trigger] after.contains(nm) implies r.view().dom().contains(nm) by {
                    let (a, b) = choose|a: int, b: int| #[trigger] placeholder_at(s@, a, b) && a < j && nm == s@.subrange(a + 1, b);
                    if a > i {
                        assert(is_name_char(s@[a]));
                    } else if a == i {
                        if b > j {
                            assert(is_name_char(s@[j as int]));
                        } else if b < j {
                            assert(is_name_char(s@[b]));
                        }
                    } else {
                        assert(before.contains(nm));
                    }
                }
                assert forall|nm: Seq<char>| #[trigger] r.view().dom().contains(nm) implies after.contains(nm) by {
                    if before.contains(nm) {
                        let (a, b) = choose|a: int, b: int| #[trigger] placeholder_at(s@, a, b) && a < i && nm == s@.subrange(a + 1, b);
                        assert(placeholder_at(s@, a, b) && a < j);
                    } else {
                        assert(placeholder_at(s@, i as int, j as int));
                    }
                }
                assert(r.view().dom() =~= after);
            }
            if j >= n {
                proof {
                    assert(placeholders_before(s@, j as int) =~= placeholders_before(s@, n as int));
                }
                i = n;
            } else {
                i = j;
            }
        } else {
            proof {
                assert(placeholders_before(s@, i + 1) =~= placeholders_before(s@, i as int));
            }
            i = i + 1;
        }
    }
    r
}

/// Whether every key of `a` is a key of `b`.
pub fn keys_within(a: &StrMap, b: &StrMap) -> (r: bool)
    requires
        a.wf(),
        b.wf(),
    ensures
        r == a.view().dom().subset_of(b.view().dom()),
{
    let mut i: usize = 0;
    while i < a.len()
        invariant
            a.wf(),
            b.wf(),
            i <= a.entries@.len(),
            forall|k: int| 0 <= k < i ==> b.view().contains_key(#[trigger] a.key_at(k)),
        decreases a.entries@.len() - i,
    {
        if !b.contains(a.key(i).as_str()) {
            proof {
                a.lemma_view_at(i as int);
            }
            return false;
        }
        i = i + 1;
    }
    proof {
        assert forall|x: Seq<char>| a.view().dom().contains(x) implies b.view().dom().contains(x) by {
            let k = choose|k: int| 0 <= k < a.entries@.len() && #[trigger] a.key_at(k) == x;
        }
    }
    true
}

/// Whether two maps have the same keys.
pub fn same_names(a: &StrMap, b: &StrMap) -> (r: bool)
    requires
        a.wf(),
        b.wf(),
    ensures
        r == (a.view().dom() == b.view().dom()),
{
    let r = keys_within(a, b) && keys_within(b, a);
    proof {
        if r {
            assert(a.view().dom() =~= b.view().dom());
        }
    }
    r
}

/// Whether two texts use the same set of placeholder names.
pub fn placeholders_match(a: &str, b: &str) -> (r: bool)
    ensures
        r == (placeholders(a@) == placeholders(b@)),
{
    let pa = extract_placeholders(a);
    let pb = extract_placeholders(b);
    same_names(&pa, &pb)
}


pub open spec fn strictly_sorted(q: Seq<Seq<char>>) -> bool {
    forall|i: int, j: int| 0 <= i < j < q.len() ==> key_lt(#[trigger] q[i], #[trigger] q[j])
}

/// The names of `s` as a strictly increasing list.
pub open spec fn sorted_names(s: Seq<char>) -> Seq<Seq<char>> {
    choose|q: Seq<Seq<char>>| strictly_sorted(q) && q.to_set() == placeholders(s)
}

/// Two strictly increasing lists with the same elements are equal.
pub proof fn lemma_sorted_unique(a: Seq<Seq<char>>, b: Seq<Seq<char>>)
    requires
        strictly_sorted(a),
        strictly_sorted(b),
        a.to_set() == b.to_set(),
    ensures
        a == b,
    decreases a.len(),
{
    if a.len() == 0 {
        if b.len() > 0 {
            assert(b.to_set().contains(b[0]));
        }
        assert(a =~= b);
    } else {
        assert(a.to_set().contains(a[0]));
        assert(b.len() > 0);
        assert(b.to_set().contains(b[0]));
        let j = choose|j: int| 0 <= j < b.len() && b[j] == a[0];
        let i = choose|i: int| 0 <= i < a.len() && a[i] == b[0];
        lemma_key_lt_irreflexive(a[0]);
        if j > 0 {
            assert(key_lt(b[0], b[j]));
            if i > 0 {
                assert(key_lt(a[0], a[i]));
                lemma_key_lt_transitive(a[0], b[0], a[0]);
            }
        }
        assert(a[0] == b[0]);
        let a1 = a.drop_first();
        let b1 = b.drop_first();
        assert forall|x: Seq<char>| a1.to_set().contains(x) implies b1.to_set().contains(x) by {
            let k = choose|k: int| 0 <= k < a1.len() && a1[k] == x;
            assert(a[k + 1] == x);
            assert(key_lt(a[0], x));
            assert(b.to_set().contains(x));
            let m = choose|m: int| 0 <= m < b.len() && b[m] == x;
            if m == 0 {
                lemma_key_lt_irreflexive(x);
            } else {
                assert(b1[m - 1] == x);
            }
        }
        assert forall|x: Seq<char>| b1.to_set().contains(x) implies a1.to_set().contains(x) by {
            let k = choose|k: int| 0 <= k < b1.len() && b1[k] == x;
            assert(b[k + 1] == x);
            assert(key_lt(b[0], x));
            assert(a.to_set().contains(x));
            let m = choose|m: int| 0 <= m < a.len() && a[m] == x;
            if m == 0 {
                lemma_key_lt_irreflexive(x);
            } else {
                assert(a1[m - 1] == x);
            }
        }
        assert(a1.to_set() =~= b1.to_set());
        lemma_sorted_unique(a1, b1);
        assert(a =~= seq![a[0]] + a1);
        assert(b =~= seq![b[0]] + b1);
    }
}

/// The keys of the map extracted from `s` are the sorted names of `s`.
pub proof fn lemma_extracted_keys(s: Seq<char>, m: StrMap)
    requires
        m.wf(),
        m.view().dom() == placeholders(s),
    ensures
        m.keys_seq() == sorted_names(s),
{
    let q = m.keys_seq();
    assert(strictly_sorted(q)) by {
        assert forall|i: int, j: int| 0 <= i < j < q.len() implies key_lt(#[trigger] q[i], #[trigger] q[j]) by {
            assert(q[i] == m.entries@[i].0@);
            assert(q[j] == m.entries@[j].0@);
        }
    }
    assert forall|x: Seq<char>| q.to_set().contains(x) == placeholders(s).contains(x) by {
        if q.to_set().contains(x) {
            let k = choose|k: int| 0 <= k < q.len() && q[k] == x;
            assert(m.key_at(k) == x);
        }
        if m.view().dom().contains(x) {
            let k = choose|k: int| 0 <= k < m.entries@.len() && #[trigger] m.key_at(k) == x;
            assert(q[k] == x);
        }
    }
    assert(q.to_set() =~= placeholders(s));
    let c = sorted_names(s);
    lemma_sorted_unique(q, c);
}

/// `"a", "b"`: each name quoted, joined with `, `.
pub open spec fn quoted_join(q: Seq<Seq<char>>) -> Seq<char>
    decreases q.len(),
{
    if q.len() == 0 {
        Seq::empty()
    } else if q.len() == 1 {
        "\""@ + q[0] + "\""@
    } else {
        quoted_join(q.drop_last()) + ", \""@ + q.last() + "\""@
    }
}

/// A set of names as written in a message: `{"a", "b"}`.
pub open spec fn names_text(q: Seq<Seq<char>>) -> Seq<char> {
    "{"@ + quoted_join(q) + "}"@
}

/// Renders the keys of `m` as `{"a", "b"}`.
pub fn names_text_of(m: &StrMap) -> (r: String)
    ensures
        r@ == names_text(m.keys_seq()),
{
    let mut body = String::new();
    let mut i: usize = 0;
    let ghost q = m.keys_seq();
    assert(q.take(0) =~= Seq::<Seq<char>>::empty());
    while i < m.len()
        invariant
            q == m.keys_seq(),
            i <= m.entries@.len(),
            body@ == quoted_join(q.take(i as int)),
        decreases m.entries@.len() - i,
    {
        let ghost t = q.take(i + 1);
        assert(t.drop_last() =~= q.take(i as int));
        assert(t.last() == m.key_at(i as int));
        if i == 0 {
            body.append("\"");
        } else {
            body.append(", \"");
        }
        body.append(m.key(i).as_str());
        body.append("\"");
        proof {
            if i == 0 {
                assert(t.len() == 1);
                assert(body@ =~= "\""@ + t[0] + "\""@);
            } else {
                assert(body@ =~= quoted_join(t.drop_last()) + ", \""@ + t.last() + "\""@);
            }
        }
        i = i + 1;
    }
    assert(q.take(i as int) =~= q);
    "{".to_string().concat(body.as_str()).concat("}")
}

} // verus!
