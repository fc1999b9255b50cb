//! The tagged interchange value passed between the host and calculator
//! scripts: null, booleans, integers, strings, exact decimals, arrays and
//! string-keyed maps. Nothing else ever crosses the script boundary.

use crate::decimal::Decimal;
use vstd::prelude::*;

verus! {

broadcast use vstd::std_specs::vec::group_vec_axioms;

/// A dynamically-typed value exchanged with a calculator script.
#[derive(Debug, PartialEq)]
pub enum Datum {
    Null,
    Bool(bool),
    Int(i64),
    Str(String),
    Dec(Decimal),
    Array(Vec<Datum>),
    Table(Vec<(String, Datum)>),
}

/// The mathematical shape of a `Datum`: what the contracts speak about.
#[verifier::ext_equal]
pub enum Vt {
    Null,
    Bool(bool),
    Int(int),
    Str(Seq<char>),
    Dec(Decimal),
    Array(Seq<Vt>),
    Table(Seq<(Seq<char>, Vt)>),
}

impl Datum {
    /// The mathematical value this `Datum` denotes.
    pub open spec fn dv(self) -> Vt
        decreases self,
    {
        match self {
            Datum::Null => Vt::Null,
            Datum::Bool(b) => Vt::Bool(b),
            Datum::Int(i) => Vt::Int(i as int),
            Datum::Str(s) => Vt::Str(s@),
            Datum::Dec(d) => Vt::Dec(d),
            Datum::Array(items) => Vt::Array(
                Seq::new(
                    items@.len(),
                    |i: int|
                        if 0 <= i < items@.len() {
                            items@[i].dv()
                        } else {
                            Vt::Null
                        },
                ),
            ),
            Datum::Table(pairs) => Vt::Table(
                Seq::new(
                    pairs@.len(),
                    |i: int|
                        (
                            pairs@[i].0@,
                            if 0 <= i < pairs@.len() {
                                pairs@[i].1.dv()
                            } else {
                                Vt::Null
                            },
                        ),
                ),
            ),
        }
    }
}

/// The view of a list of interchange values.
pub open spec fn datums_view(s: Seq<Datum>) -> Seq<Vt> {
    Seq::new(s.len(), |i: int| s[i].dv())
}

/// The view of an array or table value, written over the views of its
/// elements.
pub proof fn lemma_dv_open(v: Datum)
    ensures
        v matches Datum::Array(items) ==> v.dv() == Vt::Array(datums_view(items@)),
        v matches Datum::Table(pairs) ==> v.dv() == Vt::Table(pairs_view(pairs@)),
{
    match v {
        Datum::Array(items) => {
            assert(arr_items(v.dv()) =~= datums_view(items@));
        },
        Datum::Table(pairs) => {
            assert(table_pairs(v.dv()) =~= pairs_view(pairs@));
        },
        _ => {},
    }
}

/// Character-by-character string equality.
pub fn str_eq(a: &str, b: &str) -> (r: bool)
    ensures
        r == (a@ == b@),
{
    let n = a.unicode_len();
    if n != b.unicode_len() {
        return false;
    }
    let mut i: usize = 0;
    while i < n
        invariant
            i <= n,
            n == a@.len() && n == b@.len(),
            forall|j: int| 0 <= j < i ==> a@[j] == b@[j],
        decreases n - i,
    {
        if a.get_char(i) != b.get_char(i) {
            return false;
        }
        i = i + 1;
    }
    proof {
        assert(a@ =~= b@);
    }
    true
}

/// The value under `key` in a key/value list: the *last* binding wins, as it
/// does in a Lua table written entry by entry.
pub open spec fn pairs_get(pairs: Seq<(Seq<char>, Vt)>, key: Seq<char>) -> Option<Vt>
    decreases pairs.len(),
{
    if pairs.len() == 0 {
        None
    } else if pairs[pairs.len() - 1].0 == key {
        Some(pairs[pairs.len() - 1].1)
    } else {
        pairs_get(pairs.subrange(0, pairs.len() - 1), key)
    }
}

/// The entry list of a table value; empty for any other value.
pub open spec fn table_pairs(v: Vt) -> Seq<(Seq<char>, Vt)> {
    match v {
        Vt::Table(pairs) => pairs,
        _ => Seq::empty(),
    }
}

/// The view of an entry list: each key as characters, each value as `Vt`.
pub open spec fn pairs_view(pairs: Seq<(String, Datum)>) -> Seq<(Seq<char>, Vt)> {
    Seq::new(pairs.len(), |i: int| (pairs[i].0@, pairs[i].1.dv()))
}

/// Lookup in a table value; `None` on other values and for absent keys.
pub open spec fn spec_get(v: Vt, key: Seq<char>) -> Option<Vt> {
    match v {
        Vt::Table(pairs) => pairs_get(pairs, key),
        _ => None,
    }
}

/// A lookup in a concatenation tries the right-hand part first.
pub proof fn lemma_pairs_get_concat(x: Seq<(Seq<char>, Vt)>, y: Seq<(Seq<char>, Vt)>, key: Seq<
    char,
>)
    ensures
        pairs_get(x + y, key) == if pairs_get(y, key) is Some {
            pairs_get(y, key)
        } else {
            pairs_get(x, key)
        },
    decreases y.len(),
{
    if y.len() == 0 {
        assert(x + y =~= x);
    } else {
        let y1 = y.subrange(0, y.len() - 1);
        lemma_pairs_get_concat(x, y1, key);
        assert((x + y).subrange(0, (x + y).len() - 1) =~= x + y1);
        assert((x + y)[(x + y).len() - 1] == y[y.len() - 1]);
    }
}

impl Datum {
    /// A copy denoting the same mathematical value.
    pub fn deep_clone(&self) -> (r: Datum)
        ensures
            r.dv() == self.dv(),
        decreases self,
    {
        match self {
            Datum::Null => Datum::Null,
            Datum::Bool(b) => Datum::Bool(*b),
            Datum::Int(i) => Datum::Int(*i),
            Datum::Str(s) => Datum::Str(s.clone()),
            Datum::Dec(d) => Datum::Dec(*d),
            Datum::Array(items) => {
                let mut out: Vec<Datum> = Vec::new();
                let mut i: usize = 0;
                while i < items.len()
                    invariant
                        i <= items.len(),
                        out@.len() == i,
                        forall|j: int| 0 <= j < i ==> (#[trigger] out@[j]).dv() == items@[j].dv(),
                    decreases items.len() - i,
                {
                    let c = items[i].deep_clone();
                    out.push(c);
                    i = i + 1;
                }
                let r = Datum::Array(out);
                proof {
                    assert(arr_items(r.dv()) =~= arr_items(self.dv()));
                }
                r
            },
            Datum::Table(pairs) => {
                let mut out: Vec<(String, Datum)> = Vec::new();
                let mut i: usize = 0;
                while i < pairs.len()
                    invariant
                        i <= pairs.len(),
                        out@.len() == i,
                        forall|j: int|
                            0 <= j < i ==> (#[trigger] out@[j]).0@ == pairs@[j].0@ && out@[j].1.dv()
                                == pairs@[j].1.dv(),
                    decreases pairs.len() - i,
                {
                    let k = pairs[i].0.clone();
                    let v = pairs[i].1.deep_clone();
                    out.push((k, v));
                    i = i + 1;
                }
                let r = Datum::Table(out);
                proof {
                    assert(table_pairs(r.dv()) =~= table_pairs(self.dv()));
                }
                r
            },
        }
    }

    /// Look a key up in a table value; see `spec_get`.
    pub fn get<'a>(&'a self, key: &str) -> (r: Option<&'a Datum>)
        ensures
            match r {
                Some(v) => spec_get(self.dv(), key@) == Some(v.dv()),
                None => spec_get(self.dv(), key@) is None,
            },
    {
        let pairs: &Vec<(String, Datum)> = match self {
            Datum::Table(pairs) => pairs,
            _ => {
                return None;
            },
        };
        let ghost view = table_pairs(self.dv());
        let mut i: usize = pairs.len();
        proof {
            assert(view.subrange(0, view.len() as int) =~= view);
        }
        while i > 0
            invariant
                i <= pairs.len(),
                view == table_pairs(self.dv()),
                view.len() == pairs@.len(),
                forall|j: int|
                    0 <= j < view.len() ==> #[trigger] view[j] == (pairs@[j].0@, pairs@[j].1.dv()),
                pairs_get(view, key@) == pairs_get(view.subrange(0, i as int), key@),
            decreases i,
        {
            i = i - 1;
            let ghost pre = view.subrange(0, i + 1);
            proof {
                assert(pre[pre.len() - 1] == view[i as int]);
                assert(pre.subrange(0, pre.len() - 1) =~= view.subrange(0, i as int));
            }
            if str_eq(pairs[i].0.as_str(), key) {
                return Some(&pairs[i].1);
            }
        }
        None
    }
}

/// The element views of an array value; empty for any other value.
pub open spec fn arr_items(v: Vt) -> Seq<Vt> {
    match v {
        Vt::Array(items) => items,
        _ => Seq::empty(),
    }
}

/// Merge a configuration override into a default configuration: the result
/// holds every key of either table, and the override wins wherever both
/// define a key. Datums that are not tables contribute nothing.
pub fn merge_config(default: &Datum, overlay: &Datum) -> (r: Datum)
    ensures
        r.dv() is Table,
        forall|key: Seq<char>|
            #[trigger] spec_get(r.dv(), key) == if spec_get(overlay.dv(), key) is Some {
                spec_get(overlay.dv(), key)
            } else {
                spec_get(default.dv(), key)
            },
{
    let mut out: Vec<(String, Datum)> = Vec::new();
    copy_pairs(&mut out, default);
    let ghost base = pairs_view(out@);
    copy_pairs(&mut out, overlay);
    let r = Datum::Table(out);
    proof {
        let whole = table_pairs(r.dv());
        assert(base =~= table_pairs(default.dv())) by {
            assert(pairs_view(Seq::empty()) =~= Seq::<(Seq<char>, Vt)>::empty());
            assert(Seq::<(Seq<char>, Vt)>::empty() + table_pairs(default.dv()) =~= table_pairs(
                default.dv(),
            ));
        }
        assert(whole =~= pairs_view(out@));
        assert(whole =~= base + table_pairs(overlay.dv()));
        assert forall|key: Seq<char>| #[trigger]
            spec_get(r.dv(), key) == (if spec_get(overlay.dv(), key) is Some {
                spec_get(overlay.dv(), key)
            } else {
                spec_get(default.dv(), key)
            }) by {
            lemma_pairs_get_concat(base, table_pairs(overlay.dv()), key);
        }
    }
    r
}

/// Append copies of the entries of a table value; other values add nothing.
fn copy_pairs(out: &mut Vec<(String, Datum)>, v: &Datum)
    ensures
        pairs_view(final(out)@) == pairs_view(old(out)@) + table_pairs(v.dv()),
{
    let pairs: &Vec<(String, Datum)> = match v {
        Datum::Table(pairs) => pairs,
        _ => {
            proof {
                assert(pairs_view(out@) =~= pairs_view(old(out)@) + table_pairs(v.dv()));
            }
            return ;
        },
    };
    let ghost view = table_pairs(v.dv());
    proof {
        assert(view =~= pairs_view(pairs@));
        assert(pairs_view(out@) =~= pairs_view(old(out)@) + view.subrange(0, 0));
    }
    let mut i: usize = 0;
    while i < pairs.len()
        invariant
            i <= pairs.len(),
            view == table_pairs(v.dv()),
            view =~= pairs_view(pairs@),
            pairs_view(out@) =~= pairs_view(old(out)@) + view.subrange(0, i as int),
        decreases pairs.len() - i,
    {
        let k = pairs[i].0.clone();
        let val = pairs[i].1.deep_clone();
        let ghost before = out@;
        let ghost kv = k@;
        let ghost vv = val.dv();
        proof {
            assert(kv == pairs@[i as int].0@);
            assert(vv == pairs@[i as int].1.dv());
        }
        out.push((k, val));
        i = i + 1;
        proof {
            assert(out@ == before.push((out@[out@.len() - 1].0, out@[out@.len() - 1].1)));
            assert(out@[out@.len() - 1].0@ == kv);
            assert(out@[out@.len() - 1].1.dv() == vv);
            assert(view.subrange(0, i as int)[i - 1] == (kv, vv));
            assert forall|j: int| 0 <= j < out@.len() - 1 implies pairs_view(out@)[j]
                == pairs_view(before)[j] by {
                assert(out@[j] == before[j]);
            }
            let ghost lhs = pairs_view(out@);
            let ghost rhs = pairs_view(old(out)@) + view.subrange(0, i as int);
            assert(lhs.len() == rhs.len());
            assert forall|j: int| 0 <= j < lhs.len() implies lhs[j] == rhs[j] by {
                if j < out@.len() - 1 {
                    assert(lhs[j] == pairs_view(before)[j]);
                    assert(pairs_view(before)[j] == (pairs_view(old(out)@) + view.subrange(
                        0,
                        i - 1,
                    ))[j]);
                    if j < old(out)@.len() {
                        assert(rhs[j] == pairs_view(old(out)@)[j]);
                    } else {
                        assert(rhs[j] == view[j - old(out)@.len()]);
                    }
                } else {
                    assert(lhs[j] == (kv, vv));
                    assert(rhs[j] == view.subrange(0, i as int)[i - 1]);
                }
            }
            assert(pairs_view(out@) =~= pairs_view(old(out)@) + view.subrange(0, i as int));
        }
    }
    proof {
        assert(view.subrange(0, view.len() as int) =~= view);
        assert(pairs_view(out@) =~= pairs_view(old(out)@) + view);
    }
}

} // verus!
