use vstd::prelude::*;

use crate::flatmap::{entries_view, fold_entries, FlatMap};
use crate::value::Value;

verus! {

/// Why a flattening was refused.
#[derive(Clone, Copy, Debug, PartialEq, Eq)]
pub enum FlattenError {
    /// A map key that is neither a string nor a character.
    InvalidMapKey,
}

/// The text that a map key contributes to a path; `None` for a key that is
/// neither a string nor a character.
pub open spec fn key_text(k: Value) -> Option<Seq<char>> {
    match k {
        Value::String(s) => Some(s@),
        Value::Char(c) => Some(seq![c]),
        _ => None,
    }
}

/// The decimal digits of `n`, most significant first.
pub open spec fn decimal(n: nat) -> Seq<char>
    decreases n,
{
    let digits = seq!['0', '1', '2', '3', '4', '5', '6', '7', '8', '9'];
    if n < 10 {
        seq![digits[n as int]]
    } else {
        decimal(n / 10).push(digits[(n % 10) as int])
    }
}

/// The number of children of a composite; zero for a leaf.
pub open spec fn child_count(v: Value) -> int {
    match v {
        Value::Sequence(items) => items@.len() as int,
        Value::Mapping(pairs) => pairs@.len() as int,
        _ => 0,
    }
}

/// `rest` with `done` in front, or `None` where `rest` is `None`.
pub open spec fn prepend(
    done: Seq<(Seq<char>, Value)>,
    rest: Option<Seq<(Seq<char>, Value)>>,
) -> Option<Seq<(Seq<char>, Value)>> {
    match rest {
        Some(r) => Some(done + r),
        None => None,
    }
}

/// Relies on `char`'s `ToString`: the text of one character.
#[verifier::external_body]
fn char_text(c: char) -> (r: String)
    ensures
        r@ == seq![c],
{
    c.to_string()
}

/// Relies on `usize`'s `ToString`: its decimal digits, most significant first.
#[verifier::external_body]
fn index_text(i: usize) -> (r: String)
    ensures
        r@ == decimal(i as nat),
{
    i.to_string()
}

/// Turns a nested value into a single-depth map whose keys spell the path to
/// each leaf.
#[derive(Clone, Debug)]
pub struct FlatSerializer {
    /// Text placed between the segments of a path.
    pub key_separator: String,
    /// Text placed in front of the first segment of a path.
    pub prefix: String,
    /// Whether each key ends with the separator and the name of its leaf's type.
    pub with_schema: bool,
}

impl FlatSerializer {
    /// A serializer with the given separator and prefix, without type suffixes.
    pub fn new(key_separator: String, prefix: String) -> (r: FlatSerializer)
        ensures
            r.key_separator@ == key_separator@,
            r.prefix@ == prefix@,
            !r.with_schema,
    {
        FlatSerializer { key_separator, prefix, with_schema: false }
    }

    /// A serializer with the given separator and prefix, with type suffixes.
    pub fn new_with_schema(key_separator: String, prefix: String) -> (r: FlatSerializer)
        ensures
            r.key_separator@ == key_separator@,
            r.prefix@ == prefix@,
            r.with_schema,
    {
        FlatSerializer { key_separator, prefix, with_schema: true }
    }

    /// The suffix that a key for `v` receives.
    pub open spec fn suffix(&self, v: Value) -> Seq<char> {
        suffix_of(self.key_separator@, self.with_schema, v)
    }

    /// The key synthesized for `key` under `path`, for the value `v`.
    pub open spec fn key_for(&self, path: Seq<char>, key: Seq<char>, v: Value) -> Seq<char> {
        key_of(self.key_separator@, self.prefix@, self.with_schema, path, key, v)
    }

    /// The leaves of `v` under `path` and `key`, from its child `i` on.
    pub open spec fn walk(&self, path: Seq<char>, key: Seq<char>, v: Value, i: int) -> Option<
        Seq<(Seq<char>, Value)>,
    > {
        leaves_of(self.key_separator@, self.prefix@, self.with_schema, path, key, v, i)
    }

    /// The flat map of `v` under `path` and `key`.
    pub open spec fn flat(&self, path: Seq<char>, key: Seq<char>, v: Value) -> Option<
        Map<Seq<char>, Value>,
    > {
        flat_of(self.key_separator@, self.prefix@, self.with_schema, path, key, v)
    }

    /// The suffix that a key for `v` receives.
    pub fn schema_suffix(&self, v: &Value) -> (r: String)
        ensures
            r@ == self.suffix(*v),
    {
        if !self.with_schema {
            return String::new();
        }
        let word: &str = match v {
            Value::Bool(_) => {
                proof {
                    reveal_strlit("bool");
                }
                "bool"
            },
            Value::U8(_) | Value::U16(_) | Value::U32(_) | Value::U64(_) => {
                proof {
                    reveal_strlit("double");
                }
                "double"
            },
            Value::I8(_) | Value::I16(_) | Value::I32(_) | Value::I64(_) => {
                proof {
                    reveal_strlit("long");
                }
                "long"
            },
            Value::F32(_) | Value::F64(_) => {
                proof {
                    reveal_strlit("float");
                }
                "float"
            },
            _ => {
                return String::new();
            },
        };
        let mut r = self.key_separator.clone();
        r.append(word);
        r
    }

    /// The key synthesized for `key` under `xpath`, for the value `v`.
    pub fn format_key(&self, xpath: &str, key: &str, v: &Value) -> (r: String)
        ensures
            r@ == self.key_for(xpath@, key@, *v),
    {
        if key.unicode_len() == 0 {
            String::new()
        } else if xpath.unicode_len() == 0 {
            let mut r = self.prefix.clone();
            r.append(key);
            let suffix = self.schema_suffix(v);
            r.append(suffix.as_str());
            r
        } else {
            let mut r = String::from_str(xpath);
            r.append(self.key_separator.as_str());
            r.append(key);
            let suffix = self.schema_suffix(v);
            r.append(suffix.as_str());
            r
        }
    }
    /// Flattens `value`, reached under `xpath` by `key`: its leaves in
    /// depth-first order, each under its synthesized key, a later leaf
    /// overwriting an earlier one with the same key. Fails, with nothing
    /// returned, where a map key in `value` is neither a string nor a character.
    pub fn disassemble(&self, xpath: &str, key: &str, value: Value) -> (r: Result<
        FlatMap,
        FlattenError,
    >)
        ensures
            match self.flat(xpath@, key@, value) {
                Some(m) => r matches Ok(f) && f.wf() && f@ == m,
                None => r matches Err(FlattenError::InvalidMapKey),
            },
    {
        let mut leaves: Vec<(String, Value)> = Vec::new();
        let ghost v = value;
        if self.collect(xpath, key, value, &mut leaves) {
            assert(entries_view(leaves@) =~= self.walk(xpath@, key@, v, 0)->Some_0);
            Ok(FlatMap::from_entries(leaves))
        } else {
            Err(FlattenError::InvalidMapKey)
        }
    }

    /// Appends the leaves of `value`, reached under `xpath` by `key`, to `out`
    /// in depth-first order; `false` where a map key among them is neither a
    /// string nor a character.
    fn collect(&self, xpath: &str, key: &str, value: Value, out: &mut Vec<(String, Value)>) -> (ok:
        bool)
        ensures
            match self.walk(xpath@, key@, value, 0) {
                Some(l) => ok && entries_view(final(out)@) == entries_view(old(out)@) + l,
                None => !ok,
            },
        decreases value,
    {
        let here = self.format_key(xpath, key, &value);
        let ghost whole = value;
        let ghost start = entries_view(out@);
        match value {
            Value::Mapping(pairs) => {
                let ghost orig = pairs@;
                let mut pairs = pairs;
                let count: usize = pairs.len();
                let ghost mut done: Seq<(Seq<char>, Value)> = Seq::empty();
                let mut i: usize = 0;
                while pairs.len() > 0
                    invariant
                        whole == value,
                        whole is Mapping,
                        orig.len() == count,
                        whole->Mapping_0@ == orig,
                        i <= orig.len(),
                        pairs@ == orig.subrange(i as int, orig.len() as int),
                        here@ == self.key_for(xpath@, key@, whole),
                        entries_view(out@) == start + done,
                        self.walk(xpath@, key@, whole, 0) == prepend(
                            done,
                            self.walk(xpath@, key@, whole, i as int),
                        ),
                    decreases pairs@.len(),
                {
                    let ghost gi = i as int;
                    let (k, child) = pairs.remove(0);
                    let ghost gchild = child;
                    assert(orig[gi] == (k, child));
                    let sub: String = match k {
                        Value::String(s) => s,
                        Value::Char(c) => char_text(c),
                        _ => {
                            assert(self.walk(xpath@, key@, whole, gi) is None);
                            return false;
                        },
                    };
                    assert(key_text(orig[gi].0) == Some(sub@));
                    assert(decreases_to!(whole => gchild));
                    assert(decreases_to!(value => child));
                    let ghost mid = entries_view(out@);
                    if !self.collect(here.as_str(), sub.as_str(), child, out) {
                        assert(self.walk(xpath@, key@, whole, gi) is None);
                        return false;
                    }
                    proof {
                        let a = self.walk(here@, sub@, gchild, 0)->Some_0;
                        assert(entries_view(out@) == mid + a);
                        assert(start + done + a =~= start + (done + a));
                        assert(prepend(done, prepend(a, self.walk(xpath@, key@, whole, gi + 1)))
                            == prepend(done + a, self.walk(xpath@, key@, whole, gi + 1))) by {
                            match self.walk(xpath@, key@, whole, gi + 1) {
                                Some(r) => {
                                    assert(done + (a + r) =~= done + a + r);
                                },
                                None => {},
                            }
                        }
                        done = done + a;
                    }
                    i = i + 1;
                }
                assert(done + Seq::empty() =~= done);
                true
            },
            Value::Sequence(items) => {
                let ghost orig = items@;
                let mut items = items;
                let count: usize = items.len();
                let ghost mut done: Seq<(Seq<char>, Value)> = Seq::empty();
                let mut i: usize = 0;
                while items.len() > 0
                    invariant
                        whole == value,
                        whole is Sequence,
                        orig.len() == count,
                        whole->Sequence_0@ == orig,
                        i <= orig.len(),
                        items@ == orig.subrange(i as int, orig.len() as int),
                        here@ == self.key_for(xpath@, key@, whole),
                        entries_view(out@) == start + done,
                        self.walk(xpath@, key@, whole, 0) == prepend(
                            done,
                            self.walk(xpath@, key@, whole, i as int),
                        ),
                    decreases items@.len(),
                {
                    let ghost gi = i as int;
                    let child = items.remove(0);
                    let ghost gchild = child;
                    assert(orig[gi] == child);
                    let sub = index_text(i);
                    assert(decreases_to!(whole => gchild));
                    assert(decreases_to!(value => child));
                    let ghost mid = entries_view(out@);
                    if !self.collect(here.as_str(), sub.as_str(), child, out) {
                        assert(self.walk(xpath@, key@, whole, gi) is None);
                        return false;
                    }
                    proof {
                        let a = self.walk(here@, sub@, gchild, 0)->Some_0;
                        assert(entries_view(out@) == mid + a);
                        assert(start + done + a =~= start + (done + a));
                        assert(prepend(done, prepend(a, self.walk(xpath@, key@, whole, gi + 1)))
                            == prepend(done + a, self.walk(xpath@, key@, whole, gi + 1))) by {
                            match self.walk(xpath@, key@, whole, gi + 1) {
                                Some(r) => {
                                    assert(done + (a + r) =~= done + a + r);
                                },
                                None => {},
                            }
                        }
                        done = done + a;
                    }
                    i = i + 1;
                }
                assert(done + Seq::empty() =~= done);
                true
            },
            leaf => {
                out.push((here, leaf));
                assert(entries_view(out@) =~= start + seq![(here@, whole)]);
                true
            },
        }
    }
}

/// The suffix that a key for `v` receives: empty without schema and for
/// text, else the separator and `bool`, `double` (unsigned integers), `long`
/// (signed integers) or `float`.
pub open spec fn suffix_of(sep: Seq<char>, schema: bool, v: Value) -> Seq<char> {
    if !schema {
        Seq::empty()
    } else {
        match v {
            Value::Bool(_) => sep + seq!['b', 'o', 'o', 'l'],
            Value::U8(_) | Value::U16(_) | Value::U32(_) | Value::U64(_) => sep + seq![
                'd',
                'o',
                'u',
                'b',
                'l',
                'e',
            ],
            Value::I8(_) | Value::I16(_) | Value::I32(_) | Value::I64(_) => sep + seq![
                'l',
                'o',
                'n',
                'g',
            ],
            Value::F32(_) | Value::F64(_) => sep + seq!['f', 'l', 'o', 'a', 't'],
            _ => Seq::empty(),
        }
    }
}

/// The key synthesized for `key` under `path`, for the value `v`.
pub open spec fn key_of(
    sep: Seq<char>,
    prefix: Seq<char>,
    schema: bool,
    path: Seq<char>, key: Seq<char>, v: Value) -> Seq<char> {
    if key.len() == 0 {
        Seq::empty()
    } else if path.len() == 0 {
        prefix + key + suffix_of(sep, schema, v)
    } else {
        path + sep + key + suffix_of(sep, schema, v)
    }
}

/// The leaves of `v`, reached under `path` by `key`, each with its key, in
/// depth-first order, from the child `i` of `v` on; `None` where a map key
/// among them is neither a string nor a character.
pub open spec fn leaves_of(
    sep: Seq<char>,
    prefix: Seq<char>,
    schema: bool,
    path: Seq<char>, key: Seq<char>, v: Value, i: int) -> Option<
    Seq<(Seq<char>, Value)>,
>
    decreases v, child_count(v) - i,
{
    let here = key_of(sep, prefix, schema, path, key, v);
    match v {
        Value::Mapping(pairs) => {
            if i < 0 || i >= pairs@.len() {
                Some(Seq::empty())
            } else {
                match key_text(pairs@[i].0) {
                    None => None,
                    Some(t) => match leaves_of(sep, prefix, schema, here, t, pairs@[i].1, 0) {
                        None => None,
                        Some(a) => prepend(a, leaves_of(sep, prefix, schema, path, key, v, i + 1)),
                    },
                }
            }
        },
        Value::Sequence(items) => {
            if i < 0 || i >= items@.len() {
                Some(Seq::empty())
            } else {
                match leaves_of(sep, prefix, schema, here, decimal(i as nat), items@[i], 0) {
                    None => None,
                    Some(a) => prepend(a, leaves_of(sep, prefix, schema, path, key, v, i + 1)),
                }
            }
        },
        _ => Some(seq![(here, v)]),
    }
}

/// The flat map of `v` reached under `path` by `key`: its leaves inserted in
/// depth-first order, a later one overwriting an earlier one with the same key.
pub open spec fn flat_of(
    sep: Seq<char>,
    prefix: Seq<char>,
    schema: bool,
    path: Seq<char>, key: Seq<char>, v: Value) -> Option<
    Map<Seq<char>, Value>,
> {
    match leaves_of(sep, prefix, schema, path, key, v, 0) {
        Some(l) => Some(fold_entries(l)),
        None => None,
    }
}

/// Flattens `src` into a single-depth map: each leaf stands under the path that
/// leads to it, its segments joined by `key_separator` and the first one
/// preceded by `prefix` (none where `prefix` is `None`).
pub fn to_flatten_maptree(key_separator: &str, prefix: Option<&str>, src: Value) -> (r: Result<
    FlatMap,
    FlattenError,
>)
    ensures
        match flat_of(
            key_separator@,
            prefix_text(prefix),
            false,
            Seq::empty(),
            Seq::empty(),
            src,
        ) {
            Some(m) => r matches Ok(f) && f.wf() && f@ == m,
            None => r matches Err(FlattenError::InvalidMapKey),
        },
{
    let p = match prefix {
        Some(t) => String::from_str(t),
        None => String::new(),
    };
    let s = FlatSerializer::new(String::from_str(key_separator), p);
    proof {
        reveal_strlit("");
        assert(s.key_separator@ == key_separator@);
        assert(s.prefix@ == prefix_text(prefix));
        assert(""@ == Seq::<char>::empty());
    }
    s.disassemble("", "", src)
}

/// The text of an optional prefix; empty where there is none.
pub open spec fn prefix_text(prefix: Option<&str>) -> Seq<char> {
    match prefix {
        Some(t) => t@,
        None => Seq::empty(),
    }
}

} // verus!
