//! User-defined script nodes: a node whose body is an external process. The
//! process itself is run by the application; this module holds the port
//! descriptions and the pure text handling around the process: splitting the
//! argument template, substituting `{name}` placeholders, naming temporary
//! files, shortening messages and resolving `$tool:` commands.
use vstd::prelude::*;
use crate::error::CoreError;
use crate::graph::port::PortType;
use crate::node::NodeEnv;
use crate::text::{chars_of, chars_eq, is_white, is_whitespace, push_char, push_str, string_from_chars, trim_chars, trim_spec};

verus! {

/// How a node input reaches the external process.
#[derive(Debug, Clone, Copy, PartialEq, Eq, Structural)]
pub enum InputDelivery {
    /// Written to the process's standard input (at most one such port).
    Stdin,
    /// Substituted (as a string) into the argument template as `{name}`.
    Arg,
    /// Written to a temporary file whose path is substituted for `{name}`.
    File,
}

/// Where a node output is read from.
#[derive(Debug, Clone, Copy, PartialEq, Eq, Structural)]
pub enum OutputDelivery {
    /// `obj[name]` of a single JSON object on the process's standard output.
    StdoutJson,
    /// A temporary file whose path was substituted for `{name}`.
    File,
}

/// An input port of a script node.
#[derive(Debug, Clone)]
pub struct ScriptInputPort {
    pub name: String,
    pub label: String,
    pub port_type: PortType,
    pub delivery: InputDelivery,
}

/// An output port of a script node.
#[derive(Debug, Clone)]
pub struct ScriptOutputPort {
    pub name: String,
    pub label: String,
    pub port_type: PortType,
    pub delivery: OutputDelivery,
}

// ---------------------------------------------------------------------------
// File names
// ---------------------------------------------------------------------------

/// Characters kept in a temporary file name: ASCII letters and digits, `_`
/// and `-`.
pub open spec fn file_name_char(c: char) -> bool {
    ('a' <= c && c <= 'z') || ('A' <= c && c <= 'Z') || ('0' <= c && c <= '9') || c == '_' || c
        == '-'
}

/// `name` with every other character replaced by `_`.
pub open spec fn sanitize_spec(name: Seq<char>) -> Seq<char> {
    name.map_values(|c: char|
        if file_name_char(c) {
            c
        } else {
            '_'
        })
}

/// Make a port name safe for use in a temporary file name.
pub fn sanitize(name: &str) -> (out: String)
    ensures
        out@ == sanitize_spec(name@),
{
    let cs = chars_of(name);
    let mut out = String::new();
    let mut i: usize = 0;
    while i < cs.len()
        invariant
            i <= cs.len(),
            cs@ == name@,
            out@ == sanitize_spec(cs@.take(i as int)),
        decreases cs.len() - i,
    {
        let c = cs[i];
        let keep = ('a' <= c && c <= 'z') || ('A' <= c && c <= 'Z') || ('0' <= c && c <= '9') || c
            == '_' || c == '-';
        push_char(
            &mut out,
            if keep {
                c
            } else {
                '_'
            },
        );
        assert(sanitize_spec(cs@.take(i + 1)) =~= sanitize_spec(cs@.take(i as int)).push(
            if keep {
                c
            } else {
                '_'
            },
        ));
        i += 1;
    }
    assert(cs@.take(cs.len() as int) =~= cs@);
    out
}

/// The first `n` characters of `s`, followed by `…` where that cut
/// something off.
pub open spec fn truncate_spec(s: Seq<char>, n: nat) -> Seq<char> {
    if n < s.len() {
        s.take(n as int).push('…')
    } else {
        s
    }
}

/// Shorten `s` to at most `n` characters, marking a cut with `…`.
pub fn truncate(s: &str, n: usize) -> (out: String)
    ensures
        out@ == truncate_spec(s@, n as nat),
{
    let mut cs = chars_of(s);
    if n < cs.len() {
        cs.truncate(n);
        let mut out = string_from_chars(&cs);
        push_char(&mut out, '…');
        out
    } else {
        string_from_chars(&cs)
    }
}

// ---------------------------------------------------------------------------
// Argument template
// ---------------------------------------------------------------------------

/// The state of the tokenizer after reading `cs`: the finished tokens, the
/// token being read, whether a quote is open, and whether a token started.
pub open spec fn tok_state(cs: Seq<char>) -> (Seq<Seq<char>>, Seq<char>, bool, bool)
    decreases cs.len(),
{
    if cs.len() == 0 {
        (Seq::empty(), Seq::empty(), false, false)
    } else {
        let (out, cur, q, st) = tok_state(cs.drop_last());
        let c = cs.last();
        if c == '"' {
            (out, cur, !q, true)
        } else if is_white(c) && !q {
            if st {
                (out.push(cur), Seq::empty(), q, false)
            } else {
                (out, cur, q, st)
            }
        } else {
            (out, cur.push(c), q, true)
        }
    }
}

/// The tokens of an argument template: white space outside double quotes
/// separates tokens, quotes group and are dropped (`""` is an empty token).
pub open spec fn tokenize_spec(cs: Seq<char>) -> Seq<Seq<char>> {
    let (out, cur, q, st) = tok_state(cs);
    if st {
        out.push(cur)
    } else {
        out
    }
}

/// The views of a sequence of strings.
pub open spec fn strings_view(v: Seq<String>) -> Seq<Seq<char>> {
    v.map_values(|s: String| s@)
}

/// Split an argument template into tokens, honouring `"double quoted"`
/// spans so that paths with spaces stay one argument. Quotes are removed.
pub fn tokenize(s: &str) -> (out: Vec<String>)
    ensures
        strings_view(out@) == tokenize_spec(s@),
{
    let cs = chars_of(s);
    let mut out: Vec<String> = Vec::new();
    let mut cur = String::new();
    let mut in_quote = false;
    let mut started = false;
    let mut i: usize = 0;
    assert(cs@.take(0) =~= Seq::<char>::empty());
    assert(strings_view(out@) =~= Seq::<Seq<char>>::empty());
    while i < cs.len()
        invariant
            i <= cs.len(),
            cs@ == s@,
            tok_state(cs@.take(i as int)) == (strings_view(out@), cur@, in_quote, started),
        decreases cs.len() - i,
    {
        let c = cs[i];
        assert(cs@.take(i + 1).drop_last() =~= cs@.take(i as int));
        assert(cs@.take(i + 1).last() == c);
        if c == '"' {
            in_quote = !in_quote;
            started = true;
        } else if is_whitespace(c) && !in_quote {
            if started {
                let ghost before = out@;
                out.push(cur);
                cur = String::new();
                started = false;
                assert(strings_view(out@) =~= strings_view(before).push(strings_view(out@).last()));
            }
        } else {
            push_char(&mut cur, c);
            started = true;
        }
        i += 1;
    }
    assert(cs@.take(cs.len() as int) =~= cs@);
    if started {
        let ghost before = out@;
        out.push(cur);
        assert(strings_view(out@) =~= strings_view(before).push(strings_view(out@).last()));
    }
    out
}

// ---------------------------------------------------------------------------
// Placeholders
// ---------------------------------------------------------------------------

/// Position of the first `}` in `cs`.
pub open spec fn find_close(cs: Seq<char>) -> Option<nat>
    decreases cs.len(),
{
    if cs.len() == 0 {
        None
    } else if cs[0] == '}' {
        Some(0)
    } else {
        match find_close(cs.skip(1)) {
            Some(k) => Some(k + 1),
            None => None,
        }
    }
}

/// The views of name/value pairs.
pub open spec fn pairs_view(t: Seq<(String, String)>) -> Seq<(Seq<char>, Seq<char>)> {
    t.map_values(|p: (String, String)| (p.0@, p.1@))
}

/// The value bound to `name`; a later binding overrides an earlier one.
pub open spec fn lookup(table: Seq<(Seq<char>, Seq<char>)>, name: Seq<char>) -> Option<Seq<char>>
    decreases table.len(),
{
    if table.len() == 0 {
        None
    } else if table.last().0 == name {
        Some(table.last().1)
    } else {
        lookup(table.drop_last(), name)
    }
}

/// `cs` with each `{name}` whose name is bound replaced by its value; other
/// braces are kept as they are.
pub open spec fn substitute_spec(cs: Seq<char>, table: Seq<(Seq<char>, Seq<char>)>) -> Seq<char>
    decreases cs.len(),
    via substitute_spec_decreases
{
    if cs.len() == 0 {
        Seq::empty()
    } else if cs[0] == '{' && find_close(cs.skip(1)) is Some && lookup(
        table,
        cs.subrange(1, 1 + find_close(cs.skip(1))->Some_0 as int),
    ) is Some {
        let k = find_close(cs.skip(1))->Some_0 as int;
        lookup(table, cs.subrange(1, 1 + k))->Some_0 + substitute_spec(cs.skip(k + 2), table)
    } else {
        seq![cs[0]] + substitute_spec(cs.skip(1), table)
    }
}

proof fn lemma_find_close_bound(cs: Seq<char>)
    ensures
        find_close(cs) matches Some(k) ==> k < cs.len() && cs[k as int] == '}',
    decreases cs.len(),
{
    if cs.len() > 0 && cs[0] != '}' {
        lemma_find_close_bound(cs.skip(1));
    }
}

#[via_fn]
proof fn substitute_spec_decreases(cs: Seq<char>, table: Seq<(Seq<char>, Seq<char>)>) {
    if cs.len() > 0 {
        lemma_find_close_bound(cs.skip(1));
    }
}

/// Look a name up in a table of bindings; the last binding wins.
pub fn lookup_binding(table: &[(String, String)], name: &[char]) -> (r: Option<String>)
    ensures
        match (r, lookup(pairs_view(table@), name@)) {
            (Some(v), Some(w)) => v@ == w,
            (None, None) => true,
            _ => false,
        },
{
    let mut t: usize = table.len();
    let ghost tv = pairs_view(table@);
    assert(tv.take(t as int) =~= tv);
    while t > 0
        invariant
            t <= table.len(),
            tv == pairs_view(table@),
            lookup(tv.take(t as int), name@) == lookup(tv, name@),
        decreases t,
    {
        let key = chars_of(table[t - 1].0.as_str());
        assert(tv.take(t as int).last() == tv[t - 1]);
        assert(tv.take(t as int).drop_last() =~= tv.take(t - 1));
        if chars_eq(&key, name) {
            return Some(table[t - 1].1.clone());
        }
        t -= 1;
    }
    None
}

/// The first `}` at or after `from`, as an offset from `from`.
fn find_close_from(cs: &[char], from: usize) -> (r: Option<usize>)
    requires
        from <= cs.len(),
    ensures
        match (r, find_close(cs@.skip(from as int))) {
            (Some(k), Some(j)) => k == j && from + k < cs.len(),
            (None, None) => true,
            _ => false,
        },
{
    let mut j: usize = from;
    while j < cs.len()
        invariant
            from <= j <= cs.len(),
            find_close(cs@.skip(from as int)) == match find_close(cs@.skip(j as int)) {
                Some(k) => Some(k + (j - from) as nat),
                None => None::<nat>,
            },
        decreases cs.len() - j,
    {
        assert(cs@.skip(j as int)[0] == cs@[j as int]);
        if cs[j] == '}' {
            return Some(j - from);
        }
        assert(cs@.skip(j as int).skip(1) =~= cs@.skip(j + 1));
        j += 1;
    }
    None
}

/// Replace the bound `{name}` placeholders within one token. Unknown names
/// are left as they are.
pub fn substitute(token: &str, subst: &[(String, String)]) -> (out: String)
    ensures
        out@ == substitute_spec(token@, pairs_view(subst@)),
{
    let cs = chars_of(token);
    let n = cs.len();
    let ghost tv = pairs_view(subst@);
    let mut out = String::new();
    let mut i: usize = 0;
    assert(cs@.skip(0) =~= cs@);
    while i < n
        invariant
            i <= n,
            n == cs.len(),
            cs@ == token@,
            tv == pairs_view(subst@),
            out@ + substitute_spec(cs@.skip(i as int), tv) == substitute_spec(token@, tv),
        decreases n - i,
    {
        let ghost rest = cs@.skip(i as int);
        let ghost pre = out@;
        assert(rest[0] == cs@[i as int]);
        assert(rest.skip(1) =~= cs@.skip(i + 1));
        let mut done = false;
        if cs[i] == '{' {
            if let Some(close) = find_close_from(&cs, i + 1) {
                let mut name: Vec<char> = Vec::new();
                let mut q: usize = i + 1;
                while q < i + 1 + close
                    invariant
                        i + 1 <= q <= i + 1 + close,
                        i + 1 + close < n,
                        n == cs.len(),
                        name@ == cs@.subrange(i + 1, q as int),
                    decreases i + 1 + close - q,
                {
                    name.push(cs[q]);
                    assert(cs@.subrange(i + 1, q + 1) =~= cs@.subrange(i + 1, q as int).push(
                        cs@[q as int],
                    ));
                    q += 1;
                }
                assert(name@ =~= rest.subrange(1, 1 + close));
                if let Some(val) = lookup_binding(subst, &name) {
                    push_str(&mut out, val.as_str());
                    assert(rest.skip(close + 2) =~= cs@.skip(i + close + 2));
                    assert(out@ + substitute_spec(cs@.skip(i + close + 2), tv) =~= pre + (val@
                        + substitute_spec(rest.skip(close + 2), tv)));
                    i = i + 1 + close + 1;
                    done = true;
                }
            }
        }
        if !done {
            push_char(&mut out, cs[i]);
            assert(out@ + substitute_spec(cs@.skip(i + 1), tv) =~= pre + (seq![cs@[i as int]]
                + substitute_spec(rest.skip(1), tv)));
            i += 1;
        }
    }
    assert(cs@.skip(n as int) =~= Seq::<char>::empty());
    assert(out@ + Seq::<char>::empty() =~= out@);
    out
}

// ---------------------------------------------------------------------------
// Commands
// ---------------------------------------------------------------------------

/// The message for a `$tool:` command whose tool is not configured.
pub open spec fn tool_missing_message(key: Seq<char>) -> Seq<char> {
    "未配置工具「"@ + key + "」，请在设置中填写其可执行文件路径"@
}

/// What `resolve_command` gives: a `$tool:key` command is the configured
/// path of that tool, trimmed (an error where it is missing or blank); any
/// other command is itself.
pub open spec fn resolve_command_spec(cmd: Seq<char>, tools: Seq<(Seq<char>, Seq<char>)>) -> Result<
    Seq<char>,
    Seq<char>,
> {
    if cmd.len() >= 6 && cmd.take(6) == "$tool:"@ {
        let key = cmd.skip(6);
        match lookup(tools, key) {
            Some(v) => if trim_spec(v).len() > 0 {
                Ok(trim_spec(v))
            } else {
                Err(tool_missing_message(key))
            },
            None => Err(tool_missing_message(key)),
        }
    } else {
        Ok(cmd)
    }
}

/// Resolve a script command: `$tool:<key>` names a tool configured in the
/// environment; anything else is the command itself.
pub fn resolve_command(cmd: &str, env: &NodeEnv) -> (r: Result<String, CoreError>)
    ensures
        match (r, resolve_command_spec(cmd@, pairs_view(env.tools@))) {
            (Ok(s), Ok(t)) => s@ == t,
            (Err(e), Err(m)) => e matches CoreError::Other(msg) && msg@ == m,
            _ => false,
        },
{
    let cs = chars_of(cmd);
    let prefix = chars_of("$tool:");
    proof {
        reveal_strlit("$tool:");
    }
    let mut is_tool = cs.len() >= 6;
    let mut k: usize = 0;
    while is_tool && k < 6
        invariant
            k <= 6,
            prefix@ == "$tool:"@,
            prefix.len() == 6,
            is_tool ==> cs.len() >= 6,
            is_tool ==> forall|q: int| 0 <= q < k ==> cs@[q] == prefix@[q],
            !is_tool ==> !(cs@.len() >= 6 && cs@.take(6) == "$tool:"@),
        decreases 6 - k,
    {
        if cs[k] != prefix[k] {
            assert(cs@.take(6)[k as int] != "$tool:"@[k as int]);
            is_tool = false;
        }
        k += 1;
    }
    if is_tool {
        assert(cs@.take(6) =~= "$tool:"@);
        let mut key: Vec<char> = Vec::new();
        let mut q: usize = 6;
        while q < cs.len()
            invariant
                6 <= q <= cs.len(),
                key@ == cs@.subrange(6, q as int),
            decreases cs.len() - q,
        {
            key.push(cs[q]);
            assert(cs@.subrange(6, q + 1) =~= cs@.subrange(6, q as int).push(cs@[q as int]));
            q += 1;
        }
        assert(key@ =~= cs@.skip(6));
        let found = lookup_binding(env.tools.as_slice(), &key);
        let mut path: Option<Vec<char>> = None;
        if let Some(v) = found {
            let vc = chars_of(v.as_str());
            let t = trim_chars(&vc);
            if t.len() > 0 {
                path = Some(t);
            }
        }
        match path {
            Some(t) => Ok(string_from_chars(&t)),
            None => {
                let mut msg = String::new();
                push_str(&mut msg, "未配置工具「");
                let k2 = string_from_chars(&key);
                push_str(&mut msg, k2.as_str());
                push_str(&mut msg, "」，请在设置中填写其可执行文件路径");
                Err(CoreError::Other(msg))
            },
        }
    } else {
        Ok(string_from_chars(&cs))
    }
}

} // verus!
