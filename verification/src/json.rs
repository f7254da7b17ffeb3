//! JSON values as the project's configuration files hold them, and what the analysis reads
//! from `tsconfig.json` and `package.json`.
use vstd::prelude::*;

use crate::path::{join, join_exec};
use crate::text::{chars_eq, chars_of, string_from_chars};

verus! {

broadcast use vstd::string::group_string_axioms;

/// A JSON value. Numbers keep their text; objects keep their members in the order in
/// which the parser yields them.
pub enum JsonValue {
    Null,
    Bool(bool),
    Number(String),
    Str(String),
    Array(Vec<JsonValue>),
    Object(Vec<(String, JsonValue)>),
}

#[verifier::external_type_specification]
#[verifier::external_body]
pub struct ExSerdeJsonValue(serde_json::Value);

/// The value that `serde_json::from_str::<serde_json::Value>` parses from a text, as a
/// [`JsonValue`]; `None` when the text is not JSON.
pub uninterp spec fn json_text_value(text: Seq<char>) -> Option<JsonValue>;

/// Parses a text with `serde_json::from_str::<serde_json::Value>` and converts the value
/// with [`json_value_of`]; `None` when the parse fails. The contract claims only that the
/// result is a function of the text.
#[verifier::external_body]
fn parse_json_text(text: &str) -> (r: Option<JsonValue>)
    ensures
        r == json_text_value(text@),
{
    serde_json::from_str::<serde_json::Value>(text).ok().map(|v| json_value_of(&v))
}

/// Converts a `serde_json::Value` variant for variant into a [`JsonValue`] (a number by
/// its text, an object's members in the map's order); used by [`parse_json_text`] only.
#[verifier::external_body]
fn json_value_of(v: &serde_json::Value) -> JsonValue {
    match v {
        serde_json::Value::Null => JsonValue::Null,
        serde_json::Value::Bool(b) => JsonValue::Bool(*b),
        serde_json::Value::Number(n) => JsonValue::Number(n.to_string()),
        serde_json::Value::String(s) => JsonValue::Str(s.clone()),
        serde_json::Value::Array(items) => JsonValue::Array(items.iter().map(json_value_of).collect()),
        serde_json::Value::Object(members) => JsonValue::Object(
            members.iter().map(|(k, v)| (k.clone(), json_value_of(v))).collect(),
        ),
    }
}

/// The contents of `package.json`, as the roots read them: the parsed value, or nothing
/// when the text is not JSON (such a file is passed over).
pub fn package_from_text(text: &str) -> (r: Option<JsonValue>)
    ensures
        r == json_text_value(text@),
{
    parse_json_text(text)
}

/// The value of the first member of `members` named `key`.
pub open spec fn first_member(members: Seq<(String, JsonValue)>, key: Seq<char>) -> Option<JsonValue>
    decreases members.len(),
{
    if members.len() == 0 {
        None
    } else if members[0].0@ == key {
        Some(members[0].1)
    } else {
        first_member(members.drop_first(), key)
    }
}

/// `Value::get` with a string key: the member named `key` of an object (the first, should
/// there be several).
pub open spec fn json_get(v: JsonValue, key: Seq<char>) -> Option<JsonValue> {
    match v {
        JsonValue::Object(members) => first_member(members@, key),
        _ => None,
    }
}

/// `Value::as_str`.
pub open spec fn json_str(v: Option<JsonValue>) -> Option<Seq<char>> {
    match v {
        Some(JsonValue::Str(s)) => Some(s@),
        _ => None,
    }
}

/// The member named `key` of `v`, if `v` is an object that has one (the first, when the
/// parser left several).
pub fn json_get_exec<'a>(v: &'a JsonValue, key: &str) -> (r: Option<&'a JsonValue>)
    ensures
        r matches Some(x) ==> json_get(*v, key@) == Some(*x),
        r is None ==> json_get(*v, key@) is None,
{
    match v {
        JsonValue::Object(members) => {
            let k = chars_of(key);
            let mut i: usize = 0;
            proof {
                assert(members@.skip(0) =~= members@);
            }
            while i < members.len()
                invariant
                    i <= members@.len(),
                    k@ == key@,
                    first_member(members@, key@) == first_member(members@.skip(i as int), key@),
                    json_get(*v, key@) == first_member(members@, key@),
                decreases members@.len() - i,
            {
                proof {
                    assert(members@.skip(i as int)[0] == members@[i as int]);
                    assert(members@.skip(i as int).drop_first() =~= members@.skip(i as int + 1));
                }
                let name = chars_of(members[i].0.as_str());
                if chars_eq(&name, &k) {
                    proof {
                        assert(members@.skip(i as int)[0].0@ == key@);
                        assert(members@.skip(i as int).len() > 0);
                        assert(first_member(members@.skip(i as int), key@) == Some(
                            members@[i as int].1,
                        ));

                    }
                    return Some(&members[i].1);
                }
                i = i + 1;
            }
            None
        },
        _ => None,
    }
}

pub open spec fn deref_opt(v: Option<&JsonValue>) -> Option<JsonValue> {
    match v {
        Some(x) => Some(*x),
        None => None,
    }
}

/// The string of `v`, if it is a string.
pub fn json_str_exec(v: Option<&JsonValue>) -> (r: Option<Vec<char>>)
    ensures
        r matches Some(s) ==> json_str(deref_opt(v)) == Some(s@),
        r is None ==> json_str(deref_opt(v)) is None,
{
    match v {
        Some(JsonValue::Str(s)) => Some(chars_of(s.as_str())),
        _ => None,
    }
}

// ---------------------------------------------------------------------------------------
// tsconfig.json
/// The path aliases of `tsconfig.json`: the base directory and, in order, each alias with
/// its target patterns.
pub struct TsPaths {
    pub base_url: Option<String>,
    pub mappings: Vec<(String, Vec<String>)>,
}

pub type TsPathsView = (Option<Seq<char>>, Seq<(Seq<char>, Seq<Seq<char>>)>);

impl View for TsPaths {
    type V = TsPathsView;

    open spec fn view(&self) -> TsPathsView {
        (
            match self.base_url {
                Some(b) => Some(b@),
                None => None,
            },
            self.mappings@.map_values(
                |m: (String, Vec<String>)| (m.0@, m.1@.map_values(|s: String| s@)),
            ),
        )
    }
}

/// The strings among the items of a JSON array; nothing for any other value.
pub open spec fn array_strings(v: JsonValue) -> Seq<Seq<char>> {
    match v {
        JsonValue::Array(items) => strings_in(items@),
        _ => Seq::empty(),
    }
}

pub open spec fn strings_in(items: Seq<JsonValue>) -> Seq<Seq<char>>
    decreases items.len(),
{
    if items.len() == 0 {
        Seq::empty()
    } else {
        strings_in(items.drop_last()) + match items.last() {
            JsonValue::Str(s) => seq![s@],
            _ => Seq::empty(),
        }
    }
}

pub open spec fn mappings_of(members: Seq<(String, JsonValue)>) -> Seq<(Seq<char>, Seq<Seq<char>>)> {
    members.map_values(|m: (String, JsonValue)| (m.0@, array_strings(m.1)))
}

/// What the analysis reads from a parsed `tsconfig.json`: `compilerOptions.baseUrl`
/// joined to the project root, and the members of `compilerOptions.paths`.
pub open spec fn ts_paths_of(root: Seq<char>, v: JsonValue) -> TsPathsView {
    let opts = json_get(v, "compilerOptions"@);
    let base = match opts {
        Some(o) => match json_str(json_get(o, "baseUrl"@)) {
            Some(b) => Some(join(root, b)),
            None => None,
        },
        None => None,
    };
    let mappings = match opts {
        Some(o) => match json_get(o, "paths"@) {
            Some(JsonValue::Object(members)) => mappings_of(members@),
            _ => Seq::empty(),
        },
        None => Seq::empty(),
    };
    (base, mappings)
}

impl TsPaths {
    /// No aliases: the project has no `tsconfig.json`.
    pub fn none() -> (r: TsPaths)
        ensures
            r@ == (None::<Seq<char>>, Seq::<(Seq<char>, Seq<Seq<char>>)>::empty()),
    {
        let r = TsPaths { base_url: None, mappings: Vec::new() };
        proof {
            assert(r@.1 =~= Seq::<(Seq<char>, Seq<Seq<char>>)>::empty());
        }
        r
    }
}

fn array_strings_exec(v: &JsonValue) -> (r: Vec<String>)
    ensures
        r@.map_values(|s: String| s@) == array_strings(*v),
{
    let mut out: Vec<String> = Vec::new();
    match v {
        JsonValue::Array(items) => {
            let mut k: usize = 0;
            proof {
                assert(items@.take(0) =~= Seq::<JsonValue>::empty());
            }
            while k < items.len()
                invariant
                    k <= items@.len(),
                    out@.map_values(|s: String| s@) == strings_in(items@.take(k as int)),
                decreases items@.len() - k,
            {
                let ghost o = out@;
                proof {
                    assert(items@.take(k as int + 1).drop_last() =~= items@.take(k as int));
                    assert(items@.take(k as int + 1).last() == items@[k as int]);
                }
                match &items[k] {
                    JsonValue::Str(s) => {
                        out.push(s.clone());
                        proof {
                            assert(out@.map_values(|s: String| s@) =~= o.map_values(
                                |s: String| s@,
                            ).push(s@));
                        }
                    },
                    _ => {
                        proof {
                            assert(strings_in(items@.take(k as int + 1)) =~= strings_in(
                                items@.take(k as int),
                            ));
                        }
                    },
                }
                k = k + 1;
            }
            proof {
                assert(items@.take(items@.len() as int) =~= items@);
            }
        },
        _ => {
            proof {
                assert(out@.map_values(|s: String| s@) =~= Seq::<Seq<char>>::empty());
            }
        },
    }
    out
}

/// What the analysis reads from the text of `tsconfig.json`: `None` when the text is not
/// JSON, else what [`ts_paths_from_json`] reads from the parsed value.
pub fn ts_paths_from_text(root: &str, text: &str) -> (r: Option<TsPaths>)
    ensures
        match json_text_value(text@) {
            Some(v) => r matches Some(t) && t@ == ts_paths_of(root@, v),
            None => r is None,
        },
{
    match parse_json_text(text) {
        Some(v) => Some(ts_paths_from_json(root, &v)),
        None => None,
    }
}

/// What the analysis reads from a parsed `tsconfig.json`.
pub fn ts_paths_from_json(root: &str, v: &JsonValue) -> (r: TsPaths)
    ensures
        r@ == ts_paths_of(root@, *v),
{
    let opts = json_get_exec(v, "compilerOptions");
    let base_url = match opts {
        Some(o) => match json_str_exec(json_get_exec(o, "baseUrl")) {
            Some(b) => Some(string_from_chars(&join_exec(&chars_of(root), &b))),
            None => None,
        },
        None => None,
    };
    let mut mappings: Vec<(String, Vec<String>)> = Vec::new();
    let ghost target = ts_paths_of(root@, *v).1;
    match opts {
        Some(o) => match json_get_exec(o, "paths") {
            Some(JsonValue::Object(members)) => {
                let mut k: usize = 0;
                while k < members.len()
                    invariant
                        k <= members@.len(),
                        target == mappings_of(members@),
                        mappings@.len() == k,
                        forall|i: int|
                            0 <= i < k ==> (#[trigger] mappings@[i]).0@ == members@[i].0@
                                && mappings@[i].1@.map_values(|s: String| s@) == array_strings(
                                members@[i].1,
                            ),
                    decreases members@.len() - k,
                {
                    let vals = array_strings_exec(&members[k].1);
                    mappings.push((members[k].0.clone(), vals));
                    k = k + 1;
                }
            },
            _ => {},
        },
        None => {},
    }
    let r = TsPaths { base_url, mappings };
    proof {
        assert(r@.1 =~= target);
    }
    r
}

// ---------------------------------------------------------------------------------------
// package.json
/// The string values of an object's members, in order.
pub open spec fn member_strings(members: Seq<(String, JsonValue)>) -> Seq<Seq<char>>
    decreases members.len(),
{
    if members.len() == 0 {
        Seq::empty()
    } else {
        member_strings(members.drop_last()) + match members.last().1 {
            JsonValue::Str(s) => seq![s@],
            _ => Seq::empty(),
        }
    }
}

/// The entry point that the string member `k` names, joined to the project root.
pub open spec fn field_candidate(root: Seq<char>, v: JsonValue, k: Seq<char>) -> Seq<Seq<char>> {
    match json_str(json_get(v, k)) {
        Some(s) => seq![join(root, s)],
        None => Seq::empty(),
    }
}

/// The entry points that `exports` names: a string, or the string values of an object.
pub open spec fn exports_candidates(root: Seq<char>, v: JsonValue) -> Seq<Seq<char>> {
    match json_get(v, "exports"@) {
        Some(JsonValue::Str(s)) => seq![join(root, s@)],
        Some(JsonValue::Object(members)) => member_strings(members@).map_values(
            |s: Seq<char>| join(root, s),
        ),
        _ => Seq::empty(),
    }
}

/// The entry points that `package.json` names, each joined to the project root, in the
/// order `main`, `module`, `bin`, then `exports`.
pub open spec fn package_entry_candidates(root: Seq<char>, v: JsonValue) -> Seq<Seq<char>> {
    field_candidate(root, v, "main"@) + field_candidate(root, v, "module"@) + field_candidate(
        root,
        v,
        "bin"@,
    ) + exports_candidates(root, v)
}

fn push_joined(out: &mut Vec<String>, root: &Vec<char>, s: &Vec<char>)
    ensures
        final(out)@.map_values(|x: String| x@) == old(out)@.map_values(|x: String| x@).push(
            join(root@, s@),
        ),
{
    let j = join_exec(root, s);
    out.push(string_from_chars(&j));
    proof {
        assert(final(out)@.map_values(|x: String| x@) =~= old(out)@.map_values(|x: String| x@).push(
            join(root@, s@),
        ));
    }
}

fn push_field(out: &mut Vec<String>, root: &Vec<char>, v: &JsonValue, key: &str)
    ensures
        final(out)@.map_values(|x: String| x@) == old(out)@.map_values(|x: String| x@)
            + field_candidate(root@, *v, key@),
{
    match json_str_exec(json_get_exec(v, key)) {
        Some(s) => {
            push_joined(out, root, &s);
            proof {
                assert(old(out)@.map_values(|x: String| x@).push(join(root@, s@)) =~= old(
                    out,
                )@.map_values(|x: String| x@) + seq![join(root@, s@)]);
            }
        },
        None => {
            proof {
                assert(final(out)@.map_values(|x: String| x@) =~= old(out)@.map_values(
                    |x: String| x@,
                ) + Seq::<Seq<char>>::empty());
            }
        },
    }
}

fn push_exports(out: &mut Vec<String>, root: &Vec<char>, v: &JsonValue)
    ensures
        final(out)@.map_values(|x: String| x@) == old(out)@.map_values(|x: String| x@)
            + exports_candidates(root@, *v),
{
    let ghost o3 = out@.map_values(|x: String| x@);
    match json_get_exec(v, "exports") {
        Some(JsonValue::Str(s)) => {
            push_joined(out, root, &chars_of(s.as_str()));
            proof {
                assert(out@.map_values(|x: String| x@) =~= o3 + exports_candidates(root@, *v));
            }
        },
        Some(JsonValue::Object(members)) => {
            let mut k: usize = 0;
            proof {
                assert(members@.take(0) =~= Seq::<(String, JsonValue)>::empty());
                assert(out@.map_values(|x: String| x@) =~= o3 + member_strings(
                    members@.take(0),
                ).map_values(|s: Seq<char>| join(root@, s)));
            }
            while k < members.len()
                invariant
                    k <= members@.len(),
                    out@.map_values(|x: String| x@) == o3 + member_strings(
                        members@.take(k as int),
                    ).map_values(|s: Seq<char>| join(root@, s)),
                decreases members@.len() - k,
            {
                proof {
                    assert(members@.take(k as int + 1).drop_last() =~= members@.take(k as int));
                    assert(members@.take(k as int + 1).last() == members@[k as int]);
                }
                let ghost before = member_strings(members@.take(k as int));
                match &members[k].1 {
                    JsonValue::Str(s) => {
                        push_joined(out, root, &chars_of(s.as_str()));
                        proof {
                            assert(member_strings(members@.take(k as int + 1)) =~= before.push(s@));
                            assert(before.push(s@).map_values(|s: Seq<char>| join(root@, s))
                                =~= before.map_values(|s: Seq<char>| join(root@, s)).push(
                                join(root@, s@),
                            ));
                        }
                    },
                    _ => {
                        proof {
                            assert(member_strings(members@.take(k as int + 1)) =~= before);
                        }
                    },
                }
                k = k + 1;
            }
            proof {
                assert(members@.take(members@.len() as int) =~= members@);
            }
        },
        _ => {
            proof {
                assert(out@.map_values(|x: String| x@) =~= o3 + exports_candidates(root@, *v));
            }
        },
    }
}

/// The entry points that a parsed `package.json` names, as [`package_entry_candidates`]
/// says; the caller keeps those that exist.
pub fn package_root_candidates(root: &str, v: &JsonValue) -> (r: Vec<String>)
    ensures
        r@.map_values(|x: String| x@) == package_entry_candidates(root@, *v),
{
    let rc = chars_of(root);
    let mut out: Vec<String> = Vec::new();
    proof {
        assert(out@.map_values(|x: String| x@) =~= Seq::<Seq<char>>::empty());
    }
    push_field(&mut out, &rc, v, "main");
    push_field(&mut out, &rc, v, "module");
    push_field(&mut out, &rc, v, "bin");
    push_exports(&mut out, &rc, v);
    proof {
        assert(out@.map_values(|x: String| x@) =~= package_entry_candidates(root@, *v));
    }
    out
}

/// Law: each of `main`, `module` and `bin` that `package.json` gives as a string names an
/// entry point, joined to the root, and so does `exports` when it is a string; the first
/// member of each name is the one read.
pub proof fn law_package_fields_are_candidates(root: Seq<char>, v: JsonValue, key: Seq<char>, s: Seq<char>)
    requires
        key == "main"@ || key == "module"@ || key == "bin"@ || key == "exports"@,
        v matches JsonValue::Object(members) && first_member(members@, key) matches Some(
            JsonValue::Str(t),
        ) && t@ == s,
    ensures
        package_entry_candidates(root, v).contains(join(root, s)),
{
    let m = field_candidate(root, v, "main"@);
    let md = field_candidate(root, v, "module"@);
    let b = field_candidate(root, v, "bin"@);
    let e = exports_candidates(root, v);
    let all = package_entry_candidates(root, v);
    assert(all == m + md + b + e);
    let x = join(root, s);
    if key == "main"@ {
        assert(m[0] == x);
        assert(all[0] == x);
    } else if key == "module"@ {
        assert(md[0] == x);
        assert(all[m.len() as int] == x);
    } else if key == "bin"@ {
        assert(b[0] == x);
        assert(all[(m.len() + md.len()) as int] == x);
    } else {
        assert(e[0] == x);
        assert(all[(m.len() + md.len() + b.len()) as int] == x);
    }
}

} // verus!
