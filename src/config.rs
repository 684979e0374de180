//! The configuration: the environment bootstrap text and the named module groups.
use crate::tree::{field, field_of, string_list, strings_of_value, text_of_value, text_value, Tree};
use vstd::prelude::*;
use vstd::string::{StrSliceExecFns, StringExecFns, StringSliceAdditionalSpecFns};

verus! {

/// What follows a group's name in the error for a name without the sigil.
pub const GROUP_NAME_RULE: &'static str = ": module-group.name must begin with ':'";

/// The deepest nesting of brackets, and the most dots on one line outside
/// strings and comments, that a configuration text may hold.
pub const MAX_NESTING: usize = 32;

/// The reason given for a text nested deeper than that.
pub const TOO_DEEP: &'static str = "nested too deeply";

/// The reason given for a text that holds no string `envsetup`.
pub const BAD_ENVSETUP: &'static str = "envsetup must be a string";

/// The reason given for a `module-group` that is not a list of groups, each
/// with a string `name`, a list of strings `modules` and an optional list of
/// strings `tests`.
pub const BAD_GROUP: &'static str = "module-group must be a list of groups with a name, modules and optional tests";

/// A named collection of modules, and optionally of tests.
#[derive(Debug)]
pub struct ModuleGroup {
    pub name: String,
    pub modules: Vec<String>,
    pub tests: Option<Vec<String>>,
}

impl View for ModuleGroup {
    type V = (String, Seq<String>, Option<Seq<String>>);

    open spec fn view(&self) -> (String, Seq<String>, Option<Seq<String>>) {
        (
            self.name,
            self.modules@,
            match self.tests {
                Some(t) => Some(t@),
                None => None,
            },
        )
    }
}

/// The decoded configuration; a missing `module-group` section reads as no groups.
#[derive(Debug)]
pub struct Config {
    pub envsetup: String,
    pub groups: Vec<ModuleGroup>,
}

/// The views of a list of groups.
pub open spec fn groups_view(gs: Seq<ModuleGroup>) -> Seq<(String, Seq<String>, Option<Seq<String>>)> {
    gs.map_values(|g: ModuleGroup| g@)
}

/// A group name begins with the sigil `:`.
pub open spec fn is_group_name(s: Seq<char>) -> bool {
    s.len() > 0 && s[0] == ':'
}

/// The error for the group name `name`.
pub open spec fn group_name_error(name: Seq<char>) -> Seq<char> {
    name + GROUP_NAME_RULE@
}

/// The error for the configuration file `path` that failed to decode.
pub open spec fn parse_error(path: Seq<char>, reason: Seq<char>) -> Seq<char> {
    "failed to parse config "@ + path + ": "@ + reason
}

pub const NORMAL: u8 = 0;

pub const COMMENT: u8 = 1;

pub const BASIC: u8 = 2;

pub const LITERAL: u8 = 3;

pub const ML_BASIC: u8 = 4;

pub const ML_LITERAL: u8 = 5;

/// A count that stops rising here; anything near it is refused long before.
pub const COUNT_CAP: usize = 1000;

/// Where a scan of TOML text stands: inside what kind of token, how many
/// bytes of a quote run to pass over, the bracket depth and the dots on the
/// current line outside strings and comments, and the largest of each so far.
#[derive(Clone, Copy)]
pub struct ScanState {
    pub mode: u8,
    pub skip: usize,
    pub depth: usize,
    pub dots: usize,
    pub max_depth: usize,
    pub max_dots: usize,
}

/// The byte at `i`, or 0 past either end.
pub open spec fn byte_at(b: Seq<u8>, i: int) -> u8 {
    if 0 <= i < b.len() {
        b[i]
    } else {
        0
    }
}

/// How many of the (at most two) quotes `q` stand at `j`, `j + 1`.
pub open spec fn quote_run(b: Seq<u8>, q: u8, j: int) -> usize {
    if byte_at(b, j) == q {
        if byte_at(b, j + 1) == q {
            2
        } else {
            1
        }
    } else {
        0
    }
}

pub open spec fn with_mode(s: ScanState, mode: u8, skip: usize) -> ScanState {
    ScanState { mode, skip, depth: s.depth, dots: s.dots, max_depth: s.max_depth, max_dots: s.max_dots }
}

/// One byte of the scan, as toml's tokenizer reads it: `#` opens a comment
/// to the end of the line; a quote opens a string, three a multi-line one
/// (two make an empty string); a backslash in a basic string escapes the next
/// byte; a multi-line string closes at three quotes and keeps up to two more.
/// Brackets and dots count only outside strings and comments.
pub open spec fn step(s: ScanState, b: Seq<u8>, i: int) -> ScanState {
    let c = b[i];
    if s.skip > 0 {
        with_mode(s, s.mode, (s.skip - 1) as usize)
    } else if c == 0x0a {
        let m = if s.mode == ML_BASIC || s.mode == ML_LITERAL { s.mode } else { NORMAL };
        ScanState { mode: m, skip: 0, depth: s.depth, dots: 0, max_depth: s.max_depth, max_dots: s.max_dots }
    } else if s.mode == NORMAL {
        if c == 0x23 {
            with_mode(s, COMMENT, 0)
        } else if c == 0x22 || c == 0x27 {
            if byte_at(b, i + 1) == c {
                if byte_at(b, i + 2) == c {
                    with_mode(s, if c == 0x22 { ML_BASIC } else { ML_LITERAL }, 2)
                } else {
                    with_mode(s, NORMAL, 1)
                }
            } else {
                with_mode(s, if c == 0x22 { BASIC } else { LITERAL }, 0)
            }
        } else if c == 0x5b || c == 0x7b {
            let d = if s.depth < COUNT_CAP { (s.depth + 1) as usize } else { s.depth };
            ScanState {
                mode: NORMAL,
                skip: 0,
                depth: d,
                dots: s.dots,
                max_depth: if d > s.max_depth { d } else { s.max_depth },
                max_dots: s.max_dots,
            }
        } else if c == 0x5d || c == 0x7d {
            ScanState {
                mode: NORMAL,
                skip: 0,
                depth: if s.depth > 0 { (s.depth - 1) as usize } else { 0 },
                dots: s.dots,
                max_depth: s.max_depth,
                max_dots: s.max_dots,
            }
        } else if c == 0x2e {
            let n = if s.dots < COUNT_CAP { (s.dots + 1) as usize } else { s.dots };
            ScanState {
                mode: NORMAL,
                skip: 0,
                depth: s.depth,
                dots: n,
                max_depth: s.max_depth,
                max_dots: if n > s.max_dots { n } else { s.max_dots },
            }
        } else {
            s
        }
    } else if s.mode == BASIC {
        if c == 0x5c {
            with_mode(s, BASIC, 1)
        } else if c == 0x22 {
            with_mode(s, NORMAL, 0)
        } else {
            s
        }
    } else if s.mode == LITERAL {
        if c == 0x27 {
            with_mode(s, NORMAL, 0)
        } else {
            s
        }
    } else if s.mode == ML_BASIC || s.mode == ML_LITERAL {
        let q: u8 = if s.mode == ML_BASIC { 0x22 } else { 0x27 };
        if s.mode == ML_BASIC && c == 0x5c {
            with_mode(s, ML_BASIC, 1)
        } else if c == q && byte_at(b, i + 1) == q && byte_at(b, i + 2) == q {
            with_mode(s, NORMAL, (2 + quote_run(b, q, i + 3)) as usize)
        } else {
            s
        }
    } else {
        s
    }
}

pub open spec fn scan_start() -> ScanState {
    ScanState { mode: NORMAL, skip: 0, depth: 0, dots: 0, max_depth: 0, max_dots: 0 }
}

/// The scan after the first `n` bytes.
pub open spec fn scan(b: Seq<u8>, n: int) -> ScanState
    decreases n,
{
    if n <= 0 || n > b.len() {
        scan_start()
    } else {
        step(scan(b, n - 1), b, n - 1)
    }
}

/// The text nests no deeper than toml can parse safely: bracket depth and
/// dots on one line, outside strings and comments, within the bound.
pub open spec fn nesting_ok(b: Seq<u8>) -> bool {
    scan(b, b.len() as int).max_depth <= MAX_NESTING && scan(b, b.len() as int).max_dots
        <= MAX_NESTING
}

pub open spec fn bounded(s: ScanState) -> bool {
    s.depth <= COUNT_CAP && s.dots <= COUNT_CAP && s.skip <= 4
}

fn byte_at_exec(b: &[u8], i: usize) -> (r: u8)
    ensures
        r == byte_at(b@, i as int),
{
    if i < b.len() {
        b[i]
    } else {
        0
    }
}

fn step_exec(s: ScanState, b: &[u8], i: usize) -> (r: ScanState)
    requires
        i < b@.len(),
        bounded(s),
    ensures
        r == step(s, b@, i as int),
        bounded(r),
{
    let c = b[i];
    let n1 = byte_at_exec(b, i + 1);
    let n2 = if i + 1 < b.len() { byte_at_exec(b, i + 2) } else { 0 };
    let n3 = if i + 1 < b.len() && i + 2 < b.len() { byte_at_exec(b, i + 3) } else { 0 };
    let n4 = if i + 1 < b.len() && i + 2 < b.len() && i + 3 < b.len() {
        byte_at_exec(b, i + 4)
    } else {
        0
    };
    let next = ScanState { mode: s.mode, skip: 0, depth: s.depth, dots: s.dots, max_depth: s.max_depth, max_dots: s.max_dots };
    if s.skip > 0 {
        ScanState { skip: s.skip - 1, ..next }
    } else if c == 0x0a {
        let m = if s.mode == ML_BASIC || s.mode == ML_LITERAL { s.mode } else { NORMAL };
        ScanState { mode: m, dots: 0, ..next }
    } else if s.mode == NORMAL {
        if c == 0x23 {
            ScanState { mode: COMMENT, ..next }
        } else if c == 0x22 || c == 0x27 {
            if n1 == c {
                if n2 == c {
                    ScanState { mode: if c == 0x22 { ML_BASIC } else { ML_LITERAL }, skip: 2, ..next }
                } else {
                    ScanState { skip: 1, ..next }
                }
            } else {
                ScanState { mode: if c == 0x22 { BASIC } else { LITERAL }, ..next }
            }
        } else if c == 0x5b || c == 0x7b {
            let d = if s.depth < COUNT_CAP { s.depth + 1 } else { s.depth };
            ScanState { depth: d, max_depth: if d > s.max_depth { d } else { s.max_depth }, ..next }
        } else if c == 0x5d || c == 0x7d {
            ScanState { depth: if s.depth > 0 { s.depth - 1 } else { 0 }, ..next }
        } else if c == 0x2e {
            let n = if s.dots < COUNT_CAP { s.dots + 1 } else { s.dots };
            ScanState { dots: n, max_dots: if n > s.max_dots { n } else { s.max_dots }, ..next }
        } else {
            s
        }
    } else if s.mode == BASIC {
        if c == 0x5c {
            ScanState { skip: 1, ..next }
        } else if c == 0x22 {
            ScanState { mode: NORMAL, ..next }
        } else {
            s
        }
    } else if s.mode == LITERAL {
        if c == 0x27 {
            ScanState { mode: NORMAL, ..next }
        } else {
            s
        }
    } else if s.mode == ML_BASIC || s.mode == ML_LITERAL {
        let q: u8 = if s.mode == ML_BASIC { 0x22 } else { 0x27 };
        if s.mode == ML_BASIC && c == 0x5c {
            ScanState { skip: 1, ..next }
        } else if c == q && n1 == q && n2 == q {
            let extra: usize = if n3 == q {
                if n4 == q { 2 } else { 1 }
            } else {
                0
            };
            ScanState { mode: NORMAL, skip: 2 + extra, ..next }
        } else {
            s
        }
    } else {
        s
    }
}

/// Whether the text nests within the bound that toml is given.
fn nesting_within(b: &[u8]) -> (r: bool)
    ensures
        r == nesting_ok(b@),
{
    let mut s = ScanState { mode: NORMAL, skip: 0, depth: 0, dots: 0, max_depth: 0, max_dots: 0 };
    let mut i: usize = 0;
    while i < b.len()
        invariant
            i <= b@.len(),
            s == scan(b@, i as int),
            bounded(s),
        decreases b@.len() - i,
    {
        s = step_exec(s, b, i);
        i += 1;
    }
    s.max_depth <= MAX_NESTING && s.max_dots <= MAX_NESTING
}

/// What toml makes of the text: its value, or the message of its error.
pub uninterp spec fn toml_of(text: Seq<char>) -> Result<Tree, Seq<char>>;

/// toml's parsed TOML value.
#[verifier::external_type_specification]
#[verifier::external_body]
pub struct ExTomlValue(toml::Value);

/// Relies on toml::from_str: the TOML value of the text, carried over node for
/// node into a `Tree`, or toml's error message. toml recurses once for each
/// bracket and each dotted key part, with no limit of its own, so the text's
/// nesting is bounded.
#[verifier::external_body]
fn parse_toml(text: &str) -> (r: Result<Tree, String>)
    requires
        nesting_ok(text.spec_bytes()),
    ensures
        match r {
            Ok(t) => toml_of(text@) == Ok::<Tree, Seq<char>>(t),
            Err(e) => toml_of(text@) == Err::<Tree, Seq<char>>(e@),
        },
{
    toml::from_str::<toml::Value>(text).map(tree_of_toml).map_err(|e: toml::de::Error| e.to_string())
}

/// Carries a toml value over into a `Tree`, one node for each node; numbers
/// and dates keep the text toml writes for them.
#[verifier::external_body]
fn tree_of_toml(v: toml::Value) -> Tree {
    match v {
        toml::Value::String(s) => Tree::Str(s),
        toml::Value::Integer(i) => Tree::Number(i.to_string()),
        toml::Value::Float(x) => Tree::Number(x.to_string()),
        toml::Value::Boolean(b) => Tree::Bool(b),
        toml::Value::Datetime(d) => Tree::Datetime(d.to_string()),
        toml::Value::Array(a) => Tree::Array(a.into_iter().map(tree_of_toml).collect()),
        toml::Value::Table(t) => Tree::Object(t.into_iter().map(|(k, x)| (k, tree_of_toml(x))).collect()),
    }
}

/// The optional `tests` list: absent, or a list of strings.
pub open spec fn tests_list(t: Option<Tree>) -> Option<Option<Seq<String>>> {
    match t {
        None => Some(None),
        Some(_) => match string_list(t) {
            Some(l) => Some(Some(l)),
            None => None,
        },
    }
}

/// The group that a `module-group` table decodes to.
pub open spec fn group_decoded(t: Tree) -> Option<(String, Seq<String>, Option<Seq<String>>)> {
    let n = text_value(field(Some(t), "name"@));
    let m = string_list(field(Some(t), "modules"@));
    let ts = tests_list(field(Some(t), "tests"@));
    if n is Some && m is Some && ts is Some {
        Some((n->Some_0, m->Some_0, ts->Some_0))
    } else {
        None
    }
}

/// The groups that a list of tables decodes to, where every one decodes.
pub open spec fn groups_decoded(items: Seq<Tree>) -> Option<
    Seq<(String, Seq<String>, Option<Seq<String>>)>,
>
    decreases items.len(),
{
    if items.len() == 0 {
        Some(Seq::empty())
    } else {
        match (group_decoded(items[0]), groups_decoded(items.drop_first())) {
            (Some(g), Some(rest)) => Some(seq![g] + rest),
            _ => None,
        }
    }
}

/// The configuration that a parsed TOML value decodes to: its string
/// `envsetup` and its `module-group` tables in file order, none when absent.
pub open spec fn config_decoded(t: Option<Tree>) -> Option<
    (String, Seq<(String, Seq<String>, Option<Seq<String>>)>),
> {
    match text_value(field(t, "envsetup"@)) {
        None => None,
        Some(e) => match field(t, "module-group"@) {
            None => Some((e, Seq::empty())),
            Some(Tree::Array(items)) => match groups_decoded(items@) {
                Some(gs) => Some((e, gs)),
                None => None,
            },
            Some(_) => None,
        },
    }
}

/// What a TOML value decodes to as a configuration, or the reason it does not.
pub open spec fn config_tree_result(t: Tree) -> Result<
    (String, Seq<(String, Seq<String>, Option<Seq<String>>)>),
    Seq<char>,
> {
    match text_value(field(Some(t), "envsetup"@)) {
        None => Err(BAD_ENVSETUP@),
        Some(_) => match config_decoded(Some(t)) {
            Some(c) => Ok(c),
            None => Err(BAD_GROUP@),
        },
    }
}

/// What the configuration text of the file `path` decodes to, or the error.
pub open spec fn config_result(path: Seq<char>, text: &str) -> Result<
    (String, Seq<(String, Seq<String>, Option<Seq<String>>)>),
    Seq<char>,
> {
    if !nesting_ok(text.spec_bytes()) {
        Err(parse_error(path, TOO_DEEP@))
    } else {
        match toml_of(text@) {
            Err(e) => Err(parse_error(path, e)),
            Ok(t) => match config_tree_result(t) {
                Ok(c) => Ok(c),
                Err(reason) => Err(parse_error(path, reason)),
            },
        }
    }
}

fn failure(path: &str, reason: &str) -> (r: String)
    ensures
        r@ == parse_error(path@, reason@),
{
    let mut msg = String::from_str("failed to parse config ");
    msg.append(path);
    msg.append(": ");
    msg.append(reason);
    msg
}

/// One `module-group` table: `name`, `modules` and the optional `tests`.
fn group_of(v: &Tree) -> (r: Option<ModuleGroup>)
    ensures
        match r {
            Some(g) => group_decoded(*v) == Some(g@),
            None => group_decoded(*v) is None,
        },
{
    let name = text_of_value(field_of(v, "name"));
    let modules = strings_of_value(field_of(v, "modules"));
    let tests = match field_of(v, "tests") {
        None => Some(None),
        Some(t) => match strings_of_value(Some(t)) {
            Some(l) => Some(Some(l)),
            None => None,
        },
    };
    match (name, modules, tests) {
        (Some(name), Some(modules), Some(tests)) => Some(ModuleGroup { name, modules, tests }),
        _ => None,
    }
}

/// The groups of a list of `module-group` tables, in order.
fn groups_of(items: &Vec<Tree>) -> (r: Option<Vec<ModuleGroup>>)
    ensures
        match r {
            Some(gs) => groups_decoded(items@) == Some(groups_view(gs@)),
            None => groups_decoded(items@) is None,
        },
{
    let mut out: Vec<ModuleGroup> = Vec::new();
    let mut i: usize = 0;
    assert(items@.subrange(0, items@.len() as int) =~= items@);
    assert(groups_view(out@) =~= Seq::empty());
    while i < items.len()
        invariant
            i <= items@.len(),
            groups_decoded(items@) == match groups_decoded(
                items@.subrange(i as int, items@.len() as int),
            ) {
                Some(rest) => Some(groups_view(out@) + rest),
                None => None,
            },
        decreases items@.len() - i,
    {
        let ghost tail = items@.subrange(i as int, items@.len() as int);
        assert(tail.drop_first() =~= items@.subrange(i + 1, items@.len() as int));
        match group_of(&items[i]) {
            Some(g) => {
                let ghost before = out@;
                let ghost gv = g@;
                out.push(g);
                proof {
                    assert(groups_view(out@) =~= groups_view(before).push(gv));
                    match groups_decoded(tail.drop_first()) {
                        Some(rest) => {
                            assert(groups_view(before) + (seq![gv] + rest) =~= groups_view(out@)
                                + rest);
                        },
                        None => {},
                    }
                }
            },
            None => return None,
        }
        i += 1;
    }
    assert(items@.subrange(i as int, items@.len() as int) =~= Seq::<Tree>::empty());
    assert(groups_view(out@) + Seq::empty() =~= groups_view(out@));
    Some(out)
}

/// The configuration file's name, looked for in a directory and its ancestors.
pub const CONFIG_FILE_NAME: &'static str = "ash.toml";

/// The error when no directory on the way up holds the configuration file.
pub const CONFIG_NOT_FOUND: &'static str = "ash.toml not found";

/// Length of the first `n` characters of `p` without trailing `/`, keeping
/// at least one character.
pub open spec fn trimmed_len(p: Seq<char>, n: int) -> int
    decreases n,
{
    if n <= 1 || n > p.len() {
        n
    } else if p[n - 1] == '/' {
        trimmed_len(p, n - 1)
    } else {
        n
    }
}

/// Index of the last `/` among the first `n` characters of `p`, or -1.
pub open spec fn last_slash(p: Seq<char>, n: int) -> int
    decreases n,
{
    if n <= 0 || n > p.len() {
        -1
    } else if p[n - 1] == '/' {
        n - 1
    } else {
        last_slash(p, n - 1)
    }
}

/// The directory above `p`: nothing for the empty path and for the root `/`;
/// the empty path for a single relative name.
pub open spec fn parent_of(p: Seq<char>) -> Option<Seq<char>> {
    let n = trimmed_len(p, p.len() as int);
    let k = last_slash(p, n);
    if n == 0 || (n == 1 && p[0] == '/') {
        None
    } else if k < 0 {
        Some(Seq::empty())
    } else {
        Some(p.subrange(0, trimmed_len(p, if k == 0 { 1 } else { k })))
    }
}

/// `p` joined with the configuration file's name.
pub open spec fn config_path_in(p: Seq<char>) -> Seq<char> {
    if p.len() == 0 {
        CONFIG_FILE_NAME@
    } else if p.last() == '/' {
        p + CONFIG_FILE_NAME@
    } else {
        p + "/"@ + CONFIG_FILE_NAME@
    }
}

/// `p` and the directories above it, nearest first.
pub open spec fn ancestors(p: Seq<char>) -> Seq<Seq<char>>
    decreases p.len(),
{
    match parent_of(p) {
        Some(q) => if q.len() < p.len() {
            seq![p] + ancestors(q)
        } else {
            seq![p]
        },
        None => seq![p],
    }
}

/// Some string of `names` is `s`.
pub open spec fn listed(names: Seq<String>, s: Seq<char>) -> bool {
    exists|i: int| 0 <= i < names.len() && (#[trigger] names[i])@ == s
}

proof fn lemma_trimmed_len_bounds(p: Seq<char>, n: int)
    requires
        0 <= n <= p.len(),
    ensures
        0 <= trimmed_len(p, n) <= n,
        n >= 1 ==> trimmed_len(p, n) >= 1,
    decreases n,
{
    if n > 1 && p[n - 1] == '/' {
        lemma_trimmed_len_bounds(p, n - 1);
    }
}

proof fn lemma_last_slash_bounds(p: Seq<char>, n: int)
    requires
        0 <= n <= p.len(),
    ensures
        -1 <= last_slash(p, n) < n,
        last_slash(p, n) >= 0 ==> p[last_slash(p, n)] == '/',
    decreases n,
{
    if n > 0 && p[n - 1] != '/' {
        lemma_last_slash_bounds(p, n - 1);
    }
}

fn trimmed_len_of(p: &str, n: usize) -> (r: usize)
    requires
        n <= p@.len(),
    ensures
        r as int == trimmed_len(p@, n as int),
        r <= n,
{
    let mut m = n;
    while m > 1 && p.get_char(m - 1) == '/'
        invariant
            m <= n <= p@.len(),
            trimmed_len(p@, m as int) == trimmed_len(p@, n as int),
        decreases m,
    {
        m -= 1;
    }
    m
}

fn last_slash_of(p: &str, n: usize) -> (r: Option<usize>)
    requires
        n <= p@.len(),
    ensures
        match r {
            Some(k) => k < n && k as int == last_slash(p@, n as int),
            None => last_slash(p@, n as int) == -1,
        },
{
    let mut m = n;
    while m > 0
        invariant
            m <= n <= p@.len(),
            last_slash(p@, m as int) == last_slash(p@, n as int),
        decreases m,
    {
        if p.get_char(m - 1) == '/' {
            return Some(m - 1);
        }
        m -= 1;
    }
    None
}

/// The directory above `p`.
pub fn parent_dir(p: &str) -> (r: Option<String>)
    ensures
        match r {
            Some(q) => parent_of(p@) == Some(q@) && q@.len() < p@.len(),
            None => parent_of(p@) is None,
        },
{
    let len = p.unicode_len();
    let n = trimmed_len_of(p, len);
    proof {
        lemma_trimmed_len_bounds(p@, len as int);
        lemma_last_slash_bounds(p@, n as int);
    }
    if n == 0 || (n == 1 && p.get_char(0) == '/') {
        return None;
    }
    match last_slash_of(p, n) {
        None => Some(String::new()),
        Some(k) => {
            let m = trimmed_len_of(p, if k == 0 { 1 } else { k });
            proof {
                lemma_trimmed_len_bounds(p@, if k == 0 { 1 } else { k as int });
            }
            Some(p.substring_char(0, m).to_owned())
        },
    }
}

/// The path of the configuration file in the directory `p`.
pub fn config_path(p: &str) -> (r: String)
    ensures
        r@ == config_path_in(p@),
{
    let len = p.unicode_len();
    if len == 0 {
        String::from_str(CONFIG_FILE_NAME)
    } else if p.get_char(len - 1) == '/' {
        let mut r = p.to_owned();
        r.append(CONFIG_FILE_NAME);
        r
    } else {
        let mut r = p.to_owned();
        r.append("/");
        r.append(CONFIG_FILE_NAME);
        r
    }
}

fn is_listed(names: &Vec<String>, s: &String) -> (r: bool)
    ensures
        r == listed(names@, s@),
{
    let mut i: usize = 0;
    while i < names.len()
        invariant
            i <= names@.len(),
            forall|j: int| 0 <= j < i ==> (#[trigger] names@[j])@ != s@,
        decreases names@.len() - i,
    {
        if names[i] == *s {
            return true;
        }
        i += 1;
    }
    false
}

/// The configuration file of `root` or of the nearest directory above it
/// whose file is among `existing`, the files known to exist.
pub fn find_default_config_file(root: &str, existing: &Vec<String>) -> (r: Result<String, String>)
    ensures
        match r {
            Ok(f) => exists|k: int|
                0 <= k < ancestors(root@).len() && f@ == config_path_in(
                    #[trigger] ancestors(root@)[k],
                ) && listed(existing@, f@) && forall|j: int|
                    0 <= j < k ==> !listed(existing@, config_path_in(#[trigger] ancestors(root@)[j])),
            Err(e) => e@ == CONFIG_NOT_FOUND@ && forall|j: int|
                0 <= j < ancestors(root@).len() ==> !listed(
                    existing@,
                    config_path_in(#[trigger] ancestors(root@)[j]),
                ),
        },
{
    let mut dir = root.to_owned();
    let ghost mut k: int = 0;
    loop
        invariant
            0 <= k,
            k + ancestors(dir@).len() == ancestors(root@).len(),
            forall|j: int|
                0 <= j < ancestors(dir@).len() ==> ancestors(root@)[k + j] == #[trigger] ancestors(
                    dir@,
                )[j],
            forall|j: int|
                0 <= j < k ==> !listed(existing@, config_path_in(#[trigger] ancestors(root@)[j])),
        decreases dir@.len(),
    {
        let f = config_path(dir.as_str());
        assert(ancestors(dir@)[0] == dir@);
        if is_listed(existing, &f) {
            return Ok(f);
        }
        match parent_dir(dir.as_str()) {
            Some(q) => {
                assert(ancestors(dir@) == seq![dir@] + ancestors(q@));
                proof {
                    assert forall|j: int| 0 <= j < ancestors(q@).len() implies ancestors(root@)[k + 1 + j]
                        == #[trigger] ancestors(q@)[j] by {
                        assert(ancestors(dir@)[j + 1] == ancestors(q@)[j]);
                    }
                    k = k + 1;
                }
                dir = q;
            },
            None => {
                assert(ancestors(dir@).len() == 1);
                return Err(String::from_str(CONFIG_NOT_FOUND));
            },
        }
    }
}

/// The configuration that a parsed TOML value holds: a string `envsetup` and
/// any number of `module-group` tables, in order. Other entries are ignored.
pub fn config_from_tree(doc: &Tree) -> (r: Result<Config, &'static str>)
    ensures
        match r {
            Ok(c) => config_tree_result(*doc) == Ok::<_, Seq<char>>(
                (c.envsetup, groups_view(c.groups@)),
            ),
            Err(e) => config_tree_result(*doc) == Err::<
                (String, Seq<(String, Seq<String>, Option<Seq<String>>)>),
                Seq<char>,
            >(e@),
        },
{
    let envsetup = match text_of_value(field_of(doc, "envsetup")) {
        Some(e) => e,
        None => return Err(BAD_ENVSETUP),
    };
    let groups = match field_of(doc, "module-group") {
        None => Vec::new(),
        Some(m) => match m {
            Tree::Array(items) => match groups_of(items) {
                Some(gs) => gs,
                None => return Err(BAD_GROUP),
            },
            _ => return Err(BAD_GROUP),
        },
    };
    assert(groups_view(Seq::<ModuleGroup>::empty()) =~= Seq::empty());
    Ok(Config { envsetup, groups })
}

/// Decodes the configuration text of the file `path`; every failure names the
/// file.
pub fn parse(path: &str, text: &str) -> (r: Result<Config, String>)
    ensures
        match r {
            Ok(c) => config_result(path@, text) == Ok::<_, Seq<char>>(
                (c.envsetup, groups_view(c.groups@)),
            ),
            Err(e) => config_result(path@, text) == Err::<
                (String, Seq<(String, Seq<String>, Option<Seq<String>>)>),
                Seq<char>,
            >(e@),
        },
{
    if !nesting_within(text.as_bytes()) {
        return Err(failure(path, TOO_DEEP));
    }
    let doc = match parse_toml(text) {
        Ok(doc) => doc,
        Err(e) => return Err(failure(path, e.as_str())),
    };
    match config_from_tree(&doc) {
        Ok(c) => Ok(c),
        Err(reason) => Err(failure(path, reason)),
    }
}

/// Keeps the groups when every name begins with `:`; otherwise fails, naming
/// the first group whose name does not.
pub fn check_group_names(groups: Vec<ModuleGroup>) -> (r: Result<Vec<ModuleGroup>, String>)
    ensures
        (forall|i: int| 0 <= i < groups@.len() ==> is_group_name(#[trigger] groups@[i].name@))
            ==> r == Ok::<Vec<ModuleGroup>, String>(groups),
        r is Err ==> exists|i: int|
            0 <= i < groups@.len() && !is_group_name(#[trigger] groups@[i].name@) && (forall|j: int|
                0 <= j < i ==> is_group_name(#[trigger] groups@[j].name@)) && r->Err_0@
                == group_name_error(groups@[i].name@),
        r is Err <==> exists|i: int|
            0 <= i < groups@.len() && !is_group_name(#[trigger] groups@[i].name@),
{
    let mut i: usize = 0;
    while i < groups.len()
        invariant
            i <= groups@.len(),
            forall|j: int| 0 <= j < i ==> is_group_name(#[trigger] groups@[j].name@),
        decreases groups@.len() - i,
    {
        let name = groups[i].name.as_str();
        if name.unicode_len() == 0 || name.get_char(0) != ':' {
            let mut msg = groups[i].name.clone();
            msg.append(GROUP_NAME_RULE);
            return Err(msg);
        }
        i += 1;
    }
    Ok(groups)
}

/// The environment bootstrap text of the configuration `text` of the file `path`.
pub fn parse_envsetup(path: &str, text: &str) -> (r: Result<String, String>)
    ensures
        match config_result(path@, text) {
            Ok(c) => r == Ok::<String, String>(c.0),
            Err(e) => r is Err && r->Err_0@ == e,
        },
{
    match parse(path, text) {
        Ok(config) => Ok(config.envsetup),
        Err(e) => Err(e),
    }
}

/// The module groups of the configuration `text` of the file `path`, in
/// file order; fails as `parse_envsetup` does when the text does not decode,
/// and names the first group whose name does not begin with `:`.
pub fn parse_groups(path: &str, text: &str) -> (r: Result<Vec<ModuleGroup>, String>)
    ensures
        match config_result(path@, text) {
            Err(e) => r is Err && r->Err_0@ == e,
            Ok(c) => {
                &&& (forall|i: int| 0 <= i < c.1.len() ==> is_group_name((#[trigger] c.1[i]).0@))
                    ==> r is Ok && groups_view(r->Ok_0@) == c.1
                &&& (exists|i: int| 0 <= i < c.1.len() && !is_group_name((#[trigger] c.1[i]).0@))
                    ==> r is Err && exists|i: int|
                    0 <= i < c.1.len() && !is_group_name((#[trigger] c.1[i]).0@) && (forall|j: int|
                        0 <= j < i ==> is_group_name((#[trigger] c.1[j]).0@)) && r->Err_0@
                        == group_name_error(c.1[i].0@)
            },
        },
{
    match parse(path, text) {
        Ok(config) => {
            let ghost gv = groups_view(config.groups@);
            assert forall|i: int| 0 <= i < config.groups@.len() implies (#[trigger] gv[i]).0
                == config.groups@[i].name by {}
            let r = check_group_names(config.groups);
            proof {
                let cv = config_result(path@, text)->Ok_0.1;
                assert(cv == gv);
                if forall|i: int| 0 <= i < cv.len() ==> is_group_name((#[trigger] cv[i]).0@) {
                    assert forall|i: int| 0 <= i < config.groups@.len() implies is_group_name(
                        (#[trigger] config.groups@[i]).name@,
                    ) by {
                        assert(gv[i].0 == config.groups@[i].name);
                        assert(is_group_name(cv[i].0@));
                    }
                }
                if exists|i: int| 0 <= i < cv.len() && !is_group_name((#[trigger] cv[i]).0@) {
                    let k = choose|i: int| 0 <= i < cv.len() && !is_group_name((#[trigger] cv[i]).0@);
                    assert(gv[k].0 == config.groups@[k].name);
                    assert(!is_group_name(config.groups@[k].name@));
                    let i = choose|i: int|
                        0 <= i < config.groups@.len() && !is_group_name(
                            (#[trigger] config.groups@[i]).name@,
                        ) && (forall|j: int|
                            0 <= j < i ==> is_group_name((#[trigger] config.groups@[j]).name@))
                            && r->Err_0@ == group_name_error(config.groups@[i].name@);
                    assert(gv[i].0 == config.groups@[i].name);
                    assert forall|j: int| 0 <= j < i implies is_group_name((#[trigger] cv[j]).0@) by {
                        assert(gv[j].0 == config.groups@[j].name);
                        assert(is_group_name(config.groups@[j].name@));
                    }
                }
            }
            r
        },
        Err(e) => Err(e),
    }
}

} // verus!
