//! Assistant settings: permission rules and their aggregation across projects.
use vstd::prelude::*;
use vstd::std_specs::cmp::PartialEqSpecImpl;
use crate::sorting::{items_apart, sort_by_count_desc, sort_desc};
use crate::text::{
    chars_equal, chars_of, has_char, index_of, last_index_of, push_str, string_of,
    str_equal, strings_view, sub_chars,
};

verus! {

broadcast use vstd::string::group_string_axioms;

/// Project settings from settings.json or settings.local.json.
#[derive(Debug, Clone)]
pub struct ProjectSettings {
    pub enable_all_project_mcp_servers: bool,
    pub permissions: Permissions,
}

/// Permission rules for tools and operations.
#[derive(Debug, Clone, Default)]
pub struct Permissions {
    pub allow: Vec<String>,
    pub deny: Vec<String>,
    pub ask: Vec<String>,
}

/// Parsed permission entry.
#[derive(Debug, Clone, Eq, Hash)]
pub enum Permission {
    /// Bash command: Bash(command:args)
    Bash(String),
    /// WebFetch domain: WebFetch(domain:example.com)
    WebFetch(String),
    /// WebSearch (no args)
    WebSearch,
    /// Generic tool permission: ToolName(pattern)
    Tool { name: String, pattern: String },
    /// Simple permission (no pattern)
    Simple(String),
}

/// A permission entry as plain character sequences.
pub enum PermissionView {
    Bash(Seq<char>),
    WebFetch(Seq<char>),
    WebSearch,
    Tool { name: Seq<char>, pattern: Seq<char> },
    Simple(Seq<char>),
}

impl View for Permission {
    type V = PermissionView;

    open spec fn view(&self) -> PermissionView {
        match self {
            Permission::Bash(p) => PermissionView::Bash(p@),
            Permission::WebFetch(p) => PermissionView::WebFetch(p@),
            Permission::WebSearch => PermissionView::WebSearch,
            Permission::Tool { name, pattern } => PermissionView::Tool { name: name@, pattern: pattern@ },
            Permission::Simple(s) => PermissionView::Simple(s@),
        }
    }
}

/// `Permission::parse` does not slice a string whose last `)` comes before
/// its first `(`.
pub open spec fn parse_ok(s: Seq<char>) -> bool {
    match (index_of(s, '('), last_index_of(s, ')')) {
        (Some(open), Some(close)) => open < close,
        _ => true,
    }
}

/// The permission a string stands for: a string without `(` is `WebSearch`
/// or a simple permission; `Tool(pattern)` is split at its first `(` and its
/// last `)`, with `Bash` and `WebFetch` told apart; a string with `(` but no
/// `)` is a simple permission.
pub open spec fn parse_spec(s: Seq<char>) -> PermissionView {
    if !s.contains('(') {
        if s == "WebSearch"@ {
            PermissionView::WebSearch
        } else {
            PermissionView::Simple(s)
        }
    } else {
        match (index_of(s, '('), last_index_of(s, ')')) {
            (Some(open), Some(close)) => {
                let tool = s.subrange(0, open);
                let pattern = s.subrange(open + 1, close);
                if tool == "Bash"@ {
                    PermissionView::Bash(pattern)
                } else if tool == "WebFetch"@ {
                    PermissionView::WebFetch(pattern)
                } else {
                    PermissionView::Tool { name: tool, pattern: pattern }
                }
            },
            _ => PermissionView::Simple(s),
        }
    }
}

/// The tool a permission is for.
pub open spec fn tool_name_spec(p: PermissionView) -> Seq<char> {
    match p {
        PermissionView::Bash(_) => "Bash"@,
        PermissionView::WebFetch(_) => "WebFetch"@,
        PermissionView::WebSearch => "WebSearch"@,
        PermissionView::Tool { name, .. } => name,
        PermissionView::Simple(s) => s,
    }
}

/// The pattern of a permission, if it has one.
pub open spec fn pattern_spec(p: PermissionView) -> Option<Seq<char>> {
    match p {
        PermissionView::Bash(p) => Some(p),
        PermissionView::WebFetch(p) => Some(p),
        PermissionView::Tool { pattern, .. } => Some(pattern),
        _ => None,
    }
}

/// A permission written back as a string.
pub open spec fn permission_text(p: PermissionView) -> Seq<char> {
    match p {
        PermissionView::Bash(p) => "Bash("@ + p + ")"@,
        PermissionView::WebFetch(p) => "WebFetch("@ + p + ")"@,
        PermissionView::WebSearch => "WebSearch"@,
        PermissionView::Tool { name, pattern } => name + "("@ + pattern + ")"@,
        PermissionView::Simple(s) => s,
    }
}

/// The first index of `c` in `s`.
fn find_char(s: &[char], c: char) -> (r: Option<usize>)
    ensures
        match r {
            Some(i) => index_of(s@, c) == Some(i as int),
            None => index_of(s@, c) is None,
        },
{
    let mut i: usize = 0;
    while i < s.len()
        invariant
            i <= s@.len(),
            index_of(s@.subrange(0, i as int), c) is None,
        decreases s.len() - i,
    {
        assert(s@.subrange(0, i + 1).drop_last() == s@.subrange(0, i as int));
        if s[i] == c {
            proof {
                lemma_index_of_prefix(s@, c, i as int + 1);
            }
            return Some(i);
        }
        i = i + 1;
    }
    assert(s@.subrange(0, s@.len() as int) == s@);
    None
}

proof fn lemma_index_of_prefix(s: Seq<char>, c: char, k: int)
    requires
        0 <= k <= s.len(),
        index_of(s.subrange(0, k), c) is Some,
    ensures
        index_of(s, c) == index_of(s.subrange(0, k), c),
    decreases s.len() - k,
{
    if k < s.len() {
        assert(s.subrange(0, k + 1).drop_last() == s.subrange(0, k));
        lemma_index_of_prefix(s, c, k + 1);
    } else {
        assert(s.subrange(0, k) == s);
    }
}

/// The last index of `c` in `s`.
fn rfind_char(s: &[char], c: char) -> (r: Option<usize>)
    ensures
        match r {
            Some(i) => last_index_of(s@, c) == Some(i as int),
            None => last_index_of(s@, c) is None,
        },
{
    let mut i: usize = s.len();
    assert(s@.subrange(0, s@.len() as int) == s@);
    while i > 0
        invariant
            i <= s@.len(),
            last_index_of(s@, c) == last_index_of(s@.subrange(0, i as int), c),
        decreases i,
    {
        assert(s@.subrange(0, i as int).drop_last() == s@.subrange(0, i - 1));
        if s[i - 1] == c {
            return Some(i - 1);
        }
        i = i - 1;
    }
    None
}

proof fn lemma_index_of_bounds(s: Seq<char>, c: char)
    ensures
        index_of(s, c) matches Some(i) ==> 0 <= i < s.len() && s[i] == c,
        index_of(s, c) is None <==> !s.contains(c),
        last_index_of(s, c) matches Some(i) ==> 0 <= i < s.len() && s[i] == c,
        last_index_of(s, c) is None <==> !s.contains(c),
    decreases s.len(),
{
    if s.len() > 0 {
        lemma_index_of_bounds(s.drop_last(), c);
        if s.last() != c {
            assert(s.contains(c) <==> s.drop_last().contains(c)) by {
                if s.contains(c) {
                    let k = choose|k: int| 0 <= k < s.len() && s[k] == c;
                    assert(s.drop_last()[k] == c);
                }
                if s.drop_last().contains(c) {
                    let k = choose|k: int| 0 <= k < s.drop_last().len() && s.drop_last()[k] == c;
                    assert(s[k] == c);
                }
            }
        } else {
            assert(s[s.len() - 1] == c);
            if s.drop_last().contains(c) {
                let k = choose|k: int| 0 <= k < s.drop_last().len() && s.drop_last()[k] == c;
                assert(s[k] == c);
            }
        }
    }
}

/// The first index of `c` in `s` comes before every other `c` in `s`.
proof fn lemma_index_of_first(s: Seq<char>, c: char)
    ensures
        index_of(s, c) matches Some(i) ==> forall|j: int| 0 <= j < i ==> s[j] != c,
    decreases s.len(),
{
    if s.len() > 0 {
        lemma_index_of_first(s.drop_last(), c);
        lemma_index_of_bounds(s.drop_last(), c);
        if let Some(i) = index_of(s.drop_last(), c) {
            assert forall|j: int| 0 <= j < i implies s[j] != c by {
                assert(s[j] == s.drop_last()[j]);
            }
        }
        if s.last() == c && index_of(s.drop_last(), c) is None {
            assert forall|j: int| 0 <= j < s.len() - 1 implies s[j] != c by {
                if s[j] == c {
                    assert(s.drop_last()[j] == c);
                }
            }
        }
    }
}

/// An index where `c` stands, with no `c` before it, is the first index of `c`.
proof fn lemma_index_of_at(s: Seq<char>, c: char, i: int)
    requires
        0 <= i < s.len(),
        s[i] == c,
        forall|j: int| 0 <= j < i ==> s[j] != c,
    ensures
        index_of(s, c) == Some(i),
{
    lemma_index_of_bounds(s, c);
    lemma_index_of_first(s, c);
    assert(s.contains(c));
}

/// In `t(p)`, where `t` holds no `(`, the first `(` follows `t` and the last
/// `)` ends the text.
proof fn lemma_call_text(t: Seq<char>, p: Seq<char>)
    requires
        !t.contains('('),
    ensures
        index_of(t + "("@ + p + ")"@, '(') == Some(t.len() as int),
        last_index_of(t + "("@ + p + ")"@, ')') == Some(t.len() + p.len() + 1int),
        (t + "("@ + p + ")"@).subrange(0, t.len() as int) == t,
        (t + "("@ + p + ")"@).subrange(t.len() + 1int, t.len() + p.len() + 1int) == p,
        (t + "("@ + p + ")"@).contains('('),
{
    reveal_strlit("(");
    reveal_strlit(")");
    let w = t + "("@ + p + ")"@;
    assert(w[t.len() as int] == '(');
    assert forall|j: int| 0 <= j < t.len() implies w[j] != '(' by {
        assert(w[j] == t[j]);
        if t[j] == '(' {
            assert(t.contains('('));
        }
    }
    lemma_index_of_at(w, '(', t.len() as int);
    assert(w.last() == ')');
    assert(w.subrange(0, t.len() as int) =~= t);
    assert(w.subrange(t.len() + 1int, t.len() + p.len() + 1int) =~= p);
}

/// A permission is written as its tool name, followed by its pattern in
/// parentheses where it has one.
pub proof fn law_text_is_tool_and_pattern(p: PermissionView)
    ensures
        permission_text(p) == match pattern_spec(p) {
            Some(pat) => tool_name_spec(p) + "("@ + pat + ")"@,
            None => tool_name_spec(p),
        },
{
    reveal_strlit("Bash(");
    reveal_strlit("WebFetch(");
    reveal_strlit("Bash");
    reveal_strlit("WebFetch");
    reveal_strlit("(");
    assert("Bash("@ =~= "Bash"@ + "("@);
    assert("WebFetch("@ =~= "WebFetch"@ + "("@);
    match p {
        PermissionView::Bash(pat) => {
            assert("Bash("@ + pat + ")"@ =~= "Bash"@ + "("@ + pat + ")"@);
        },
        PermissionView::WebFetch(pat) => {
            assert("WebFetch("@ + pat + ")"@ =~= "WebFetch"@ + "("@ + pat + ")"@);
        },
        _ => {},
    }
}

/// Writing a parsed permission back as a string and parsing that string gives
/// the same permission again.
pub proof fn law_parse_of_text_round_trips(s: Seq<char>)
    requires
        parse_ok(s),
    ensures
        parse_ok(permission_text(parse_spec(s))),
        parse_spec(permission_text(parse_spec(s))) == parse_spec(s),
{
    reveal_strlit("WebSearch");
    reveal_strlit("Bash");
    reveal_strlit("WebFetch");
    reveal_strlit("Bash(");
    reveal_strlit("WebFetch(");
    reveal_strlit("(");
    assert("Bash("@ =~= "Bash"@ + "("@);
    assert("WebFetch("@ =~= "WebFetch"@ + "("@);
    lemma_index_of_bounds(s, '(');
    lemma_index_of_bounds(s, ')');
    lemma_index_of_first(s, '(');
    if s.contains('(') {
        if let (Some(open), Some(close)) = (index_of(s, '('), last_index_of(s, ')')) {
            let tool = s.subrange(0, open);
            let pattern = s.subrange(open + 1, close);
            assert(!tool.contains('(')) by {
                if tool.contains('(') {
                    let k = choose|k: int| 0 <= k < tool.len() && tool[k] == '(';
                    assert(s[k] == '(');
                }
            }
            let t = if tool == "Bash"@ {
                "Bash"@
            } else if tool == "WebFetch"@ {
                "WebFetch"@
            } else {
                tool
            };
            assert(t == tool);
            lemma_call_text(t, pattern);
            let w = t + "("@ + pattern + ")"@;
            assert(permission_text(parse_spec(s)) =~= w);
        }
    } else {
        if s == "WebSearch"@ {
            assert(!"WebSearch"@.contains('(')) by {
                if "WebSearch"@.contains('(') {
                    let k = choose|k: int| 0 <= k < "WebSearch"@.len() && "WebSearch"@[k] == '(';
                    assert(false);
                }
            }
            lemma_index_of_bounds("WebSearch"@, '(');
        }
    }
}

/// The permissions whose text parses back to them: every `Bash`, `WebFetch`
/// and `WebSearch` permission; a tool permission whose name holds no `(` and
/// is neither `Bash` nor `WebFetch`; and a simple permission other than
/// `WebSearch` that lacks a `(` or a `)`.
pub open spec fn parses_back(p: PermissionView) -> bool {
    match p {
        PermissionView::Tool { name, .. } => !name.contains('(') && name != "Bash"@ && name != "WebFetch"@,
        PermissionView::Simple(x) => x != "WebSearch"@ && (!x.contains('(') || !x.contains(')')),
        _ => true,
    }
}

proof fn lemma_literal_has_no_open(t: Seq<char>)
    requires
        t == "Bash"@ || t == "WebFetch"@ || t == "WebSearch"@,
    ensures
        !t.contains('('),
{
    reveal_strlit("Bash");
    reveal_strlit("WebFetch");
    reveal_strlit("WebSearch");
    if t.contains('(') {
        let k = choose|k: int| 0 <= k < t.len() && t[k] == '(';
        assert(false);
    }
}

/// Parsing the text of a permission gives the permission back, for every
/// permission whose text can parse back to it.
pub proof fn law_parse_gives_back(p: PermissionView)
    requires
        parses_back(p),
    ensures
        parse_ok(permission_text(p)),
        parse_spec(permission_text(p)) == p,
{
    reveal_strlit("Bash(");
    reveal_strlit("WebFetch(");
    reveal_strlit("Bash");
    reveal_strlit("WebFetch");
    reveal_strlit("(");
    assert("Bash("@ =~= "Bash"@ + "("@);
    assert("WebFetch("@ =~= "WebFetch"@ + "("@);
    lemma_literal_has_no_open("Bash"@);
    lemma_literal_has_no_open("WebFetch"@);
    lemma_literal_has_no_open("WebSearch"@);
    match p {
        PermissionView::Bash(pat) => {
            lemma_call_text("Bash"@, pat);
            assert(permission_text(p) =~= "Bash"@ + "("@ + pat + ")"@);
        },
        PermissionView::WebFetch(pat) => {
            lemma_call_text("WebFetch"@, pat);
            assert(permission_text(p) =~= "WebFetch"@ + "("@ + pat + ")"@);
        },
        PermissionView::WebSearch => {
            lemma_index_of_bounds("WebSearch"@, '(');
        },
        PermissionView::Tool { name, pattern } => {
            lemma_call_text(name, pattern);
        },
        PermissionView::Simple(x) => {
            lemma_index_of_bounds(x, '(');
            lemma_index_of_bounds(x, ')');
        },
    }
}

/// Writing back a parsed string gives the string, where it holds no `(` or
/// ends with `)`.
pub proof fn law_text_of_parse_gives_string(s: Seq<char>)
    requires
        !s.contains('(') || (s.len() > 0 && s.last() == ')'),
    ensures
        parse_ok(s),
        permission_text(parse_spec(s)) == s,
{
    reveal_strlit("Bash(");
    reveal_strlit("WebFetch(");
    reveal_strlit("(");
    reveal_strlit(")");
    reveal_strlit("Bash");
    reveal_strlit("WebFetch");
    assert("Bash("@ =~= "Bash"@ + "("@);
    assert("WebFetch("@ =~= "WebFetch"@ + "("@);
    lemma_index_of_bounds(s, '(');
    lemma_index_of_bounds(s, ')');
    if s.contains('(') {
        let open = index_of(s, '(')->0;
        let close = s.len() - 1;
        assert(last_index_of(s, ')') == Some(close));
        let tool = s.subrange(0, open);
        let pattern = s.subrange(open + 1, close);
        assert(s =~= tool + "("@ + pattern + ")"@);
        assert(permission_text(parse_spec(s)) =~= tool + "("@ + pattern + ")"@);
    } else if s == "WebSearch"@ {
        reveal_strlit("WebSearch");
    }
}

impl Permission {
    /// Whether `Permission::parse` accepts a string without panicking.
    pub fn can_parse(s: &str) -> (r: bool)
        ensures
            r == parse_ok(s@),
    {
        let cs = chars_of(s);
        match (find_char(cs.as_slice(), '('), rfind_char(cs.as_slice(), ')')) {
            (Some(open), Some(close)) => open < close,
            _ => true,
        }
    }

    /// Parse a permission string like "Bash(cargo:*)" or "WebSearch".
    pub fn parse(s: &str) -> (r: Permission)
        requires
            parse_ok(s@),
        ensures
            r@ == parse_spec(s@),
    {
        let cs = chars_of(s);
        proof {
            lemma_index_of_bounds(cs@, '(');
            lemma_index_of_bounds(cs@, ')');
        }
        if !has_char(cs.as_slice(), '(') {
            let web_search = chars_of("WebSearch");
            if chars_equal(cs.as_slice(), web_search.as_slice()) {
                return Permission::WebSearch;
            } else {
                return Permission::Simple(string_of(cs.as_slice()));
            }
        }
        match find_char(cs.as_slice(), '(') {
            Some(open_paren) => match rfind_char(cs.as_slice(), ')') {
                Some(close_paren) => {
                    let tool = sub_chars(cs.as_slice(), 0, open_paren);
                    let pattern = sub_chars(cs.as_slice(), open_paren + 1, close_paren);
                    let bash = chars_of("Bash");
                    let web_fetch = chars_of("WebFetch");
                    if chars_equal(tool.as_slice(), bash.as_slice()) {
                        Permission::Bash(string_of(pattern.as_slice()))
                    } else if chars_equal(tool.as_slice(), web_fetch.as_slice()) {
                        Permission::WebFetch(string_of(pattern.as_slice()))
                    } else {
                        Permission::Tool {
                            name: string_of(tool.as_slice()),
                            pattern: string_of(pattern.as_slice()),
                        }
                    }
                },
                None => Permission::Simple(string_of(cs.as_slice())),
            },
            None => Permission::Simple(string_of(cs.as_slice())),
        }
    }

    /// A copy of this permission.
    pub fn duplicate(&self) -> (r: Permission)
        ensures
            r == *self,
    {
        match self {
            Permission::Bash(p) => Permission::Bash(p.clone()),
            Permission::WebFetch(p) => Permission::WebFetch(p.clone()),
            Permission::WebSearch => Permission::WebSearch,
            Permission::Tool { name, pattern } => Permission::Tool { name: name.clone(), pattern: pattern.clone() },
            Permission::Simple(s) => Permission::Simple(s.clone()),
        }
    }

    /// Get the tool name.
    pub fn tool_name(&self) -> (r: &str)
        ensures
            r@ == tool_name_spec(self@),
    {
        match self {
            Permission::Bash(_) => "Bash",
            Permission::WebFetch(_) => "WebFetch",
            Permission::WebSearch => "WebSearch",
            Permission::Tool { name, .. } => name.as_str(),
            Permission::Simple(s) => s.as_str(),
        }
    }

    /// Get the pattern if any.
    pub fn pattern(&self) -> (r: Option<&str>)
        ensures
            match r {
                Some(p) => pattern_spec(self@) == Some(p@),
                None => pattern_spec(self@) is None,
            },
    {
        match self {
            Permission::Bash(p) => Some(p.as_str()),
            Permission::WebFetch(p) => Some(p.as_str()),
            Permission::Tool { pattern, .. } => Some(pattern.as_str()),
            Permission::WebSearch | Permission::Simple(_) => None,
        }
    }

    /// Format back to string.
    pub fn to_string(&self) -> (r: String)
        ensures
            r@ == permission_text(self@),
    {
        let mut out: Vec<char> = Vec::new();
        match self {
            Permission::Bash(p) => {
                push_str(&mut out, "Bash(");
                push_str(&mut out, p.as_str());
                push_str(&mut out, ")");
            },
            Permission::WebFetch(p) => {
                push_str(&mut out, "WebFetch(");
                push_str(&mut out, p.as_str());
                push_str(&mut out, ")");
            },
            Permission::WebSearch => {
                push_str(&mut out, "WebSearch");
            },
            Permission::Tool { name, pattern } => {
                push_str(&mut out, name.as_str());
                push_str(&mut out, "(");
                push_str(&mut out, pattern.as_str());
                push_str(&mut out, ")");
            },
            Permission::Simple(s) => {
                push_str(&mut out, s.as_str());
            },
        }
        string_of(out.as_slice())
    }
}


impl PartialEq for Permission {
    fn eq(&self, other: &Self) -> (r: bool) {
        match (self, other) {
            (Permission::Bash(a), Permission::Bash(b)) => str_equal(a.as_str(), b.as_str()),
            (Permission::WebFetch(a), Permission::WebFetch(b)) => str_equal(a.as_str(), b.as_str()),
            (Permission::WebSearch, Permission::WebSearch) => true,
            (Permission::Tool { name: n1, pattern: p1 }, Permission::Tool { name: n2, pattern: p2 }) => {
                str_equal(n1.as_str(), n2.as_str()) && str_equal(p1.as_str(), p2.as_str())
            },
            (Permission::Simple(a), Permission::Simple(b)) => str_equal(a.as_str(), b.as_str()),
            _ => false,
        }
    }
}

impl PartialEqSpecImpl for Permission {
    open spec fn obeys_eq_spec() -> bool {
        true
    }

    open spec fn eq_spec(&self, other: &Self) -> bool {
        self@ == other@
    }
}


/// The number of entries of `m` for `Bash` patterns with a `*`.
pub open spec fn wildcard_bash_entries(m: Seq<(PermissionView, Seq<Seq<char>>)>) -> nat
    decreases m.len(),
{
    if m.len() == 0 {
        0
    } else {
        wildcard_bash_entries(m.drop_last()) + match m.last().0 {
            PermissionView::Bash(p) => if p.contains('*') { 1nat } else { 0nat },
            _ => 0nat,
        }
    }
}

/// Which settings file a project's settings come from.
#[derive(Clone, Copy, Debug, PartialEq, Eq, Structural)]
pub enum SettingsFile {
    /// `settings.local.json` in the project's settings directory
    Local,
    /// `settings.json` in the project's settings directory
    Shared,
}

/// The settings file to read: the local one where it exists, else the
/// shared one where it exists, else none.
pub fn choose_settings_file(local_exists: bool, shared_exists: bool) -> (r: Option<SettingsFile>)
    ensures
        r == if local_exists {
            Some(SettingsFile::Local)
        } else if shared_exists {
            Some(SettingsFile::Shared)
        } else {
            None
        },
{
    if local_exists {
        Some(SettingsFile::Local)
    } else if shared_exists {
        Some(SettingsFile::Shared)
    } else {
        None
    }
}

/// Every permission string of a list can be parsed.
pub open spec fn all_parse_ok(v: Seq<String>) -> bool {
    forall|i: int| 0 <= i < v.len() ==> parse_ok((#[trigger] v[i])@)
}

/// Every permission string of the settings can be parsed.
pub open spec fn settings_parse_ok(s: ProjectSettings) -> bool {
    &&& all_parse_ok(s.permissions.allow@)
    &&& all_parse_ok(s.permissions.deny@)
    &&& all_parse_ok(s.permissions.ask@)
}

/// Permissions with the projects that use each, as plain sequences.
pub open spec fn perm_map_view(m: Seq<(Permission, Vec<String>)>) -> Seq<(PermissionView, Seq<Seq<char>>)> {
    m.map_values(|e: (Permission, Vec<String>)| (e.0@, e.1@.map_values(|s: String| s@)))
}

/// The first slot of `m` for the permission `p`.
pub open spec fn perm_slot(m: Seq<(PermissionView, Seq<Seq<char>>)>, p: PermissionView) -> Option<int>
    decreases m.len(),
{
    if m.len() == 0 {
        None
    } else {
        match perm_slot(m.drop_last(), p) {
            Some(i) => Some(i),
            None => if m.last().0 == p {
                Some(m.len() - 1)
            } else {
                None
            },
        }
    }
}

/// `m` with `project` added to the projects of the permission `p`.
pub open spec fn add_user(
    m: Seq<(PermissionView, Seq<Seq<char>>)>,
    p: PermissionView,
    project: Seq<char>,
) -> Seq<(PermissionView, Seq<Seq<char>>)> {
    match perm_slot(m, p) {
        Some(i) => m.update(i, (m[i].0, m[i].1.push(project))),
        None => m.push((p, seq![project])),
    }
}

/// `m` with `project` added for each permission string of `perms`, in order.
pub open spec fn add_users(
    m: Seq<(PermissionView, Seq<Seq<char>>)>,
    perms: Seq<String>,
    project: Seq<char>,
) -> Seq<(PermissionView, Seq<Seq<char>>)>
    decreases perms.len(),
{
    if perms.len() == 0 {
        m
    } else {
        add_user(add_users(m, perms.drop_last(), project), parse_spec(perms.last()@), project)
    }
}

/// Each permission with the number of projects that use it.
pub open spec fn perm_counts(m: Seq<(Permission, Vec<String>)>) -> Seq<(Permission, usize)> {
    m.map_values(|e: (Permission, Vec<String>)| (e.0, e.1@.len() as usize))
}

proof fn lemma_perm_slot(m: Seq<(PermissionView, Seq<Seq<char>>)>, p: PermissionView)
    ensures
        perm_slot(m, p) matches Some(i) ==> 0 <= i < m.len() && m[i].0 == p,
    decreases m.len(),
{
    if m.len() > 0 {
        lemma_perm_slot(m.drop_last(), p);
    }
}

proof fn lemma_perm_slot_prefix(m: Seq<(PermissionView, Seq<Seq<char>>)>, p: PermissionView, k: int)
    requires
        0 <= k <= m.len(),
        perm_slot(m.subrange(0, k), p) is Some,
    ensures
        perm_slot(m, p) == perm_slot(m.subrange(0, k), p),
    decreases m.len() - k,
{
    if k < m.len() {
        assert(m.subrange(0, k + 1).drop_last() == m.subrange(0, k));
        lemma_perm_slot_prefix(m, p, k + 1);
    } else {
        assert(m.subrange(0, k) == m);
    }
}

proof fn lemma_perm_slot_same_keys(
    m: Seq<(PermissionView, Seq<Seq<char>>)>,
    n: Seq<(PermissionView, Seq<Seq<char>>)>,
    p: PermissionView,
)
    requires
        m.len() == n.len(),
        forall|k: int| 0 <= k < m.len() ==> (#[trigger] m[k]).0 == n[k].0,
    ensures
        perm_slot(m, p) == perm_slot(n, p),
    decreases m.len(),
{
    if m.len() > 0 {
        assert forall|k: int| 0 <= k < m.len() - 1 implies (#[trigger] m.drop_last()[k]).0 == n.drop_last()[k].0 by {
            assert(m.drop_last()[k] == m[k]);
            assert(n.drop_last()[k] == n[k]);
        }
        lemma_perm_slot_same_keys(m.drop_last(), n.drop_last(), p);
        assert(m.last().0 == n.last().0);
    }
}

/// The permission `p` has a slot in `m` whose projects include `project`.
pub open spec fn slot_has(m: Seq<(PermissionView, Seq<Seq<char>>)>, p: PermissionView, project: Seq<char>) -> bool {
    match perm_slot(m, p) {
        Some(j) => m[j].1.contains(project),
        None => false,
    }
}

/// Every permission of `perms` has a slot in `m` whose projects include `project`.
pub open spec fn uses_all(m: Seq<(PermissionView, Seq<Seq<char>>)>, perms: Seq<PermissionView>, project: Seq<char>) -> bool {
    forall|i: int| 0 <= i < perms.len() ==> #[trigger] slot_has(m, perms[i], project)
}

proof fn lemma_perm_slot_none(m: Seq<(PermissionView, Seq<Seq<char>>)>, p: PermissionView)
    ensures
        perm_slot(m, p) is None ==> forall|i: int| 0 <= i < m.len() ==> (#[trigger] m[i]).0 != p,
    decreases m.len(),
{
    if m.len() > 0 {
        lemma_perm_slot_none(m.drop_last(), p);
        if perm_slot(m, p) is None {
            assert forall|i: int| 0 <= i < m.len() implies (#[trigger] m[i]).0 != p by {
                if i < m.len() - 1 {
                    assert(m[i] == m.drop_last()[i]);
                }
            }
        }
    }
}

proof fn lemma_add_user_keeps_uses(
    m: Seq<(PermissionView, Seq<Seq<char>>)>,
    perms: Seq<PermissionView>,
    q: PermissionView,
    project: Seq<char>,
)
    requires
        uses_all(m, perms, project),
    ensures
        uses_all(add_user(m, q, project), perms.push(q), project),
{
    let n = add_user(m, q, project);
    lemma_perm_slot(m, q);
    match perm_slot(m, q) {
        Some(s) => {
            assert forall|k: int| 0 <= k < m.len() implies (#[trigger] m[k]).0 == n[k].0 by {}
            assert forall|i: int| 0 <= i < perms.push(q).len() implies #[trigger] slot_has(
                n,
                perms.push(q)[i],
                project,
            ) by {
                let pi = perms.push(q)[i];
                lemma_perm_slot_same_keys(m, n, pi);
                lemma_perm_slot(m, pi);
                if i < perms.len() {
                    assert(pi == perms[i]);
                    assert(slot_has(m, perms[i], project));
                    let j = perm_slot(m, pi)->0;
                    assert(m[j].1.contains(project));
                    if j == s {
                        let k = choose|k: int| 0 <= k < m[j].1.len() && m[j].1[k] == project;
                        assert(n[j].1[k] == project);
                    } else {
                        assert(n[j] == m[j]);
                    }
                } else {
                    assert(n[s].1 == m[s].1.push(project));
                    assert(n[s].1[m[s].1.len() as int] == project);
                }
            }
        },
        None => {
            assert(n.drop_last() =~= m);
            assert forall|i: int| 0 <= i < perms.push(q).len() implies #[trigger] slot_has(
                n,
                perms.push(q)[i],
                project,
            ) by {
                let pi = perms.push(q)[i];
                if i < perms.len() {
                    assert(pi == perms[i]);
                    assert(slot_has(m, perms[i], project));
                    let j = perm_slot(m, pi)->0;
                    lemma_perm_slot(m, pi);
                    assert(n[j] == m[j]);
                    assert(perm_slot(n, pi) == Some(j));
                } else {
                    lemma_perm_slot_none(m, q);
                    assert(perm_slot(n, pi) == Some(m.len() as int));
                    assert(n.last().1 == seq![project]);
                    assert(n.last().1[0] == project);
                }
            }
        },
    }
}

/// After a project is added, each permission it lists has a slot whose
/// projects include it.
pub proof fn law_added_project_uses_its_permissions(
    m: Seq<(PermissionView, Seq<Seq<char>>)>,
    perms: Seq<String>,
    project: Seq<char>,
)
    ensures
        forall|i: int|
            0 <= i < perms.len() ==> #[trigger] slot_has(add_users(m, perms, project), parse_spec(perms[i]@), project),
    decreases perms.len(),
{
    let parsed = perms.map_values(|s: String| parse_spec(s@));
    lemma_add_users_uses(m, perms, project);
    assert forall|i: int| 0 <= i < perms.len() implies #[trigger] slot_has(
        add_users(m, perms, project),
        parse_spec(perms[i]@),
        project,
    ) by {
        assert(parsed[i] == parse_spec(perms[i]@));
        assert(slot_has(add_users(m, perms, project), parsed[i], project));
    }
}

proof fn lemma_add_users_uses(m: Seq<(PermissionView, Seq<Seq<char>>)>, perms: Seq<String>, project: Seq<char>)
    ensures
        uses_all(add_users(m, perms, project), perms.map_values(|s: String| parse_spec(s@)), project),
    decreases perms.len(),
{
    let parsed = perms.map_values(|s: String| parse_spec(s@));
    if perms.len() == 0 {
        assert(parsed.len() == 0);
    } else {
        lemma_add_users_uses(m, perms.drop_last(), project);
        let prev_parsed = perms.drop_last().map_values(|s: String| parse_spec(s@));
        assert(parsed =~= prev_parsed.push(parse_spec(perms.last()@)));
        lemma_add_user_keeps_uses(
            add_users(m, perms.drop_last(), project),
            prev_parsed,
            parse_spec(perms.last()@),
            project,
        );
    }
}

/// No permission has two slots in `m`.
pub open spec fn perms_distinct(m: Seq<(PermissionView, Seq<Seq<char>>)>) -> bool {
    forall|i: int, j: int| 0 <= i < j < m.len() ==> (#[trigger] m[i]).0 != (#[trigger] m[j]).0
}

proof fn lemma_add_user_keeps_distinct(m: Seq<(PermissionView, Seq<Seq<char>>)>, p: PermissionView, project: Seq<char>)
    requires
        perms_distinct(m),
    ensures
        perms_distinct(add_user(m, p, project)),
{
    let n = add_user(m, p, project);
    lemma_perm_slot(m, p);
    lemma_perm_slot_none(m, p);
    assert forall|i: int, j: int| 0 <= i < j < n.len() implies (#[trigger] n[i]).0 != (#[trigger] n[j]).0 by {
        if perm_slot(m, p) is Some {
            assert(n[i].0 == m[i].0);
            assert(n[j].0 == m[j].0);
        } else if j == m.len() {
            assert(n[i] == m[i]);
        } else {
            assert(n[i] == m[i]);
            assert(n[j] == m[j]);
        }
    }
}

proof fn lemma_add_users_keeps_distinct(m: Seq<(PermissionView, Seq<Seq<char>>)>, perms: Seq<String>, project: Seq<char>)
    requires
        perms_distinct(m),
    ensures
        perms_distinct(add_users(m, perms, project)),
    decreases perms.len(),
{
    if perms.len() > 0 {
        lemma_add_users_keeps_distinct(m, perms.drop_last(), project);
        lemma_add_user_keeps_distinct(add_users(m, perms.drop_last(), project), parse_spec(perms.last()@), project);
    }
}

/// No two entries of `m` hold the same permission.
proof fn lemma_perms_apart(m: Seq<(Permission, Vec<String>)>)
    requires
        perms_distinct(perm_map_view(m)),
    ensures
        items_apart(perm_counts(m), |a: Permission, b: Permission| a@ == b@),
{
    let c = perm_counts(m);
    let mv = perm_map_view(m);
    assert forall|i: int, j: int| 0 <= i < c.len() && 0 <= j < c.len() && i != j implies !((|a: Permission, b: Permission| a@ == b@)(
        #[trigger] c[i].0,
        #[trigger] c[j].0,
    )) by {
        assert(c[i].0 == m[i].0 && c[j].0 == m[j].0);
        assert(mv[i].0 == m[i].0@ && mv[j].0 == m[j].0@);
        if i < j {
            assert(mv[i].0 != mv[j].0);
        } else {
            assert(mv[j].0 != mv[i].0);
        }
    }
}

/// The project count grows by one for each project added under a name not
/// seen before and stays for a name added again, so it never exceeds the
/// number of additions, and after additions under pairwise different names
/// it is their number.
pub proof fn law_project_count_after_additions(names: Seq<Seq<char>>, name: Seq<char>)
    ensures
        names.push(name).to_set().len() == names.to_set().len() + if names.contains(name) {
            0int
        } else {
            1int
        },
        names.to_set().len() <= names.len(),
        names.no_duplicates() ==> names.to_set().len() == names.len(),
{
    names.lemma_push_to_set_commute(name);
    vstd::seq_lib::seq_to_set_is_finite(names);
    vstd::set::axiom_set_insert_len(names.to_set(), name);
    assert(names.to_set().contains(name) == names.contains(name));
    names.lemma_cardinality_of_set();
    if names.no_duplicates() {
        names.unique_seq_to_set();
    }
}

/// Adds `project` to the projects of `perm` in `m`.
fn add_user_exec(m: &mut Vec<(Permission, Vec<String>)>, perm: Permission, project: String)
    ensures
        perm_map_view(final(m)@) == add_user(perm_map_view(old(m)@), perm@, project@),
{
    let ghost mv = perm_map_view(m@);
    let mut i: usize = 0;
    while i < m.len()
        invariant
            i <= m@.len(),
            m@ == old(m)@,
            mv == perm_map_view(m@),
            perm_slot(mv.subrange(0, i as int), perm@) is None,
        decreases m.len() - i,
    {
        assert(mv.subrange(0, i + 1).drop_last() == mv.subrange(0, i as int));
        assert(mv[i as int].0 == m@[i as int].0@);
        if m[i].0 == perm {
            proof {
                lemma_perm_slot_prefix(mv, perm@, i as int + 1);
            }
            let ghost v0 = m@;
            let (k, mut list) = m.remove(i);
            let ghost list0 = list@;
            list.push(project);
            m.insert(i, (k, list));
            proof {
                let target = mv.update(i as int, (mv[i as int].0, mv[i as int].1.push(project@)));
                let now = m@;
                assert(now.len() == v0.len());
                assert forall|j: int| 0 <= j < now.len() && j != i implies now[j] == v0[j] by {}
                assert(now[i as int].1@ == list0.push(project));
                assert(list0.push(project).map_values(|s: String| s@) =~= list0.map_values(|s: String| s@).push(project@));
                assert forall|j: int| 0 <= j < now.len() implies perm_map_view(now)[j] == target[j] by {
                    if j != i {
                        assert(perm_map_view(now)[j] == perm_map_view(v0)[j]);
                    }
                }
                assert(perm_map_view(now) =~= target);
            }
            return;
        }
        i = i + 1;
    }
    assert(mv.subrange(0, mv.len() as int) == mv);
    let mut list: Vec<String> = Vec::new();
    list.push(project);
    let ghost v0 = m@;
    m.push((perm, list));
    proof {
        assert(list@.map_values(|s: String| s@) =~= seq![project@]);
        assert(perm_map_view(m@) =~= mv.push((perm@, seq![project@])));
    }
}

/// Adds `project` for each permission string of `perms`.
fn add_users_exec(m: &mut Vec<(Permission, Vec<String>)>, perms: &Vec<String>, project: &String)
    requires
        all_parse_ok(perms@),
    ensures
        perm_map_view(final(m)@) == add_users(perm_map_view(old(m)@), perms@, project@),
{
    let mut i: usize = 0;
    while i < perms.len()
        invariant
            i <= perms@.len(),
            all_parse_ok(perms@),
            perm_map_view(m@) == add_users(perm_map_view(old(m)@), perms@.subrange(0, i as int), project@),
        decreases perms.len() - i,
    {
        assert(perms@.subrange(0, i + 1).drop_last() == perms@.subrange(0, i as int));
        assert(parse_ok(perms@[i as int]@));
        let perm = Permission::parse(perms[i].as_str());
        add_user_exec(m, perm, project.clone());
        i = i + 1;
    }
    assert(perms@.subrange(0, perms@.len() as int) == perms@);
}

/// Aggregate permissions across multiple projects.
#[derive(Debug)]
pub struct PermissionAggregation {
    /// Permission -> list of projects that use it.
    pub allow_map: Vec<(Permission, Vec<String>)>,
    pub deny_map: Vec<(Permission, Vec<String>)>,
    pub ask_map: Vec<(Permission, Vec<String>)>,
    /// Projects with MCP enabled.
    pub mcp_enabled_projects: Vec<String>,
    /// Every project added, in order.
    pub projects: Vec<String>,
}

impl PermissionAggregation {
    /// No permission has two slots in any of the three tables.
    pub open spec fn well_formed(&self) -> bool {
        &&& perms_distinct(perm_map_view(self.allow_map@))
        &&& perms_distinct(perm_map_view(self.deny_map@))
        &&& perms_distinct(perm_map_view(self.ask_map@))
    }

    /// An aggregation of no projects.
    pub fn new() -> (r: Self)
        ensures
            r.allow_map@.len() == 0,
            r.deny_map@.len() == 0,
            r.ask_map@.len() == 0,
            r.mcp_enabled_projects@.len() == 0,
            r.projects@.len() == 0,
            r.well_formed(),
    {
        PermissionAggregation {
            allow_map: Vec::new(),
            deny_map: Vec::new(),
            ask_map: Vec::new(),
            mcp_enabled_projects: Vec::new(),
            projects: Vec::new(),
        }
    }

    /// Whether every permission string of the settings can be parsed.
    pub fn can_add(settings: &ProjectSettings) -> (r: bool)
        ensures
            r == settings_parse_ok(*settings),
    {
        all_can_parse(&settings.permissions.allow) && all_can_parse(&settings.permissions.deny)
            && all_can_parse(&settings.permissions.ask)
    }

    /// Add a project's settings to the aggregation.
    pub fn add_project(&mut self, project_name: String, settings: &ProjectSettings)
        requires
            settings_parse_ok(*settings),
        ensures
            final(self).mcp_enabled_projects@ == if settings.enable_all_project_mcp_servers {
                old(self).mcp_enabled_projects@.push(project_name)
            } else {
                old(self).mcp_enabled_projects@
            },
            perm_map_view(final(self).allow_map@) == add_users(
                perm_map_view(old(self).allow_map@),
                settings.permissions.allow@,
                project_name@,
            ),
            perm_map_view(final(self).deny_map@) == add_users(
                perm_map_view(old(self).deny_map@),
                settings.permissions.deny@,
                project_name@,
            ),
            perm_map_view(final(self).ask_map@) == add_users(
                perm_map_view(old(self).ask_map@),
                settings.permissions.ask@,
                project_name@,
            ),
            final(self).projects@ == old(self).projects@.push(project_name),
            old(self).well_formed() ==> final(self).well_formed(),
    {
        proof {
            if perms_distinct(perm_map_view(self.allow_map@)) {
                lemma_add_users_keeps_distinct(perm_map_view(self.allow_map@), settings.permissions.allow@, project_name@);
            }
            if perms_distinct(perm_map_view(self.deny_map@)) {
                lemma_add_users_keeps_distinct(perm_map_view(self.deny_map@), settings.permissions.deny@, project_name@);
            }
            if perms_distinct(perm_map_view(self.ask_map@)) {
                lemma_add_users_keeps_distinct(perm_map_view(self.ask_map@), settings.permissions.ask@, project_name@);
            }
        }
        self.projects.push(project_name.clone());
        if settings.enable_all_project_mcp_servers {
            self.mcp_enabled_projects.push(project_name.clone());
        }
        add_users_exec(&mut self.allow_map, &settings.permissions.allow, &project_name);
        add_users_exec(&mut self.deny_map, &settings.permissions.deny, &project_name);
        add_users_exec(&mut self.ask_map, &settings.permissions.ask, &project_name);
    }

    /// Get top N most common permissions, most projects first; each
    /// permission comes once.
    pub fn top_allowed(&self, n: usize) -> (r: Vec<(Permission, usize)>)
        requires
            self.well_formed(),
        ensures
            r@ == sort_desc(perm_counts(self.allow_map@)).take(
                vstd::math::min(n as int, self.allow_map@.len() as int),
            ),
            forall|i: int, j: int| 0 <= i < j < r@.len() ==> (#[trigger] r@[i]).0@ != (#[trigger] r@[j]).0@,
    {
        top_of(&self.allow_map, n)
    }

    /// Get top N most common denied permissions, most projects first; each
    /// permission comes once.
    pub fn top_denied(&self, n: usize) -> (r: Vec<(Permission, usize)>)
        requires
            self.well_formed(),
        ensures
            r@ == sort_desc(perm_counts(self.deny_map@)).take(
                vstd::math::min(n as int, self.deny_map@.len() as int),
            ),
            forall|i: int, j: int| 0 <= i < j < r@.len() ==> (#[trigger] r@[i]).0@ != (#[trigger] r@[j]).0@,
    {
        top_of(&self.deny_map, n)
    }

    /// The number of projects that allow `perm`.
    pub fn allowed_count(&self, perm: &Permission) -> (r: usize)
        ensures
            r == match perm_slot(perm_map_view(self.allow_map@), perm@) {
                Some(i) => perm_map_view(self.allow_map@)[i].1.len(),
                None => 0,
            },
    {
        let ghost mv = perm_map_view(self.allow_map@);
        let mut i: usize = 0;
        while i < self.allow_map.len()
            invariant
                i <= self.allow_map@.len(),
                mv == perm_map_view(self.allow_map@),
                perm_slot(mv.subrange(0, i as int), perm@) is None,
            decreases self.allow_map.len() - i,
        {
            assert(mv.subrange(0, i + 1).drop_last() == mv.subrange(0, i as int));
            assert(mv[i as int].0 == self.allow_map@[i as int].0@);
            if self.allow_map[i].0 == *perm {
                proof {
                    lemma_perm_slot_prefix(mv, perm@, i as int + 1);
                }
                return self.allow_map[i].1.len();
            }
            i = i + 1;
        }
        assert(mv.subrange(0, mv.len() as int) == mv);
        0
    }

    /// The number of allowed permissions that are `Bash` patterns with a `*`.
    pub fn wildcard_bash_count(&self) -> (r: usize)
        ensures
            r == wildcard_bash_entries(perm_map_view(self.allow_map@)),
    {
        let ghost mv = perm_map_view(self.allow_map@);
        let mut count: usize = 0;
        let mut i: usize = 0;
        while i < self.allow_map.len()
            invariant
                i <= self.allow_map@.len(),
                mv == perm_map_view(self.allow_map@),
                count == wildcard_bash_entries(mv.take(i as int)),
                count <= i,
            decreases self.allow_map.len() - i,
        {
            assert(mv.take(i + 1).drop_last() == mv.take(i as int));
            assert(mv.take(i + 1).last().0 == self.allow_map@[i as int].0@);
            match &self.allow_map[i].0 {
                Permission::Bash(pat) => {
                    let cs = chars_of(pat.as_str());
                    if has_char(cs.as_slice(), '*') {
                        count = count + 1;
                    }
                },
                _ => {},
            }
            i = i + 1;
        }
        assert(mv.take(mv.len() as int) == mv);
        count
    }

    /// Get total project count: the number of different names among the
    /// projects added.
    pub fn total_projects(&self) -> (r: usize)
        ensures
            r == strings_view(self.projects@).to_set().len(),
    {
        let mut seen: Vec<String> = Vec::new();
        let mut i: usize = 0;
        proof {
            assert(strings_view(seen@) =~= seq![]);
            assert(strings_view(self.projects@.take(0)) =~= seq![]);
        }
        while i < self.projects.len()
            invariant
                i <= self.projects@.len(),
                strings_view(seen@).no_duplicates(),
                strings_view(seen@).to_set() == strings_view(self.projects@.take(i as int)).to_set(),
            decreases self.projects.len() - i,
        {
            let name = &self.projects[i];
            let ghost sv = strings_view(seen@);
            let ghost prev = strings_view(self.projects@.take(i as int));
            let found = contains_string(&seen, name.as_str());
            proof {
                assert(strings_view(self.projects@.take(i + 1)) =~= prev.push(name@));
                prev.lemma_push_to_set_commute(name@);
                sv.lemma_push_to_set_commute(name@);
                assert(sv =~= seen@.map_values(|x: String| x@));
            }
            if !found {
                seen.push(name.clone());
                proof {
                    assert(strings_view(seen@) =~= sv.push(name@));
                    assert forall|a: int, b: int| 0 <= a < b < sv.len() + 1 implies sv.push(name@)[a] != sv.push(name@)[b] by {
                        if b == sv.len() {
                            assert(sv.contains(sv[a]));
                        }
                    }
                    assert(strings_view(seen@).to_set() =~= strings_view(self.projects@.take(i + 1)).to_set());
                }
            } else {
                proof {
                    assert(sv.to_set().contains(name@));
                    assert(strings_view(seen@).to_set() =~= strings_view(self.projects@.take(i + 1)).to_set());
                }
            }
            i = i + 1;
        }
        proof {
            assert(self.projects@.take(self.projects@.len() as int) =~= self.projects@);
            strings_view(seen@).unique_seq_to_set();
        }
        seen.len()
    }
}

/// The tables, the MCP-enabled projects and the projects of an aggregation,
/// as plain sequences.
pub struct AggregationView {
    pub allow: Seq<(PermissionView, Seq<Seq<char>>)>,
    pub deny: Seq<(PermissionView, Seq<Seq<char>>)>,
    pub ask: Seq<(PermissionView, Seq<Seq<char>>)>,
    pub mcp_enabled: Seq<Seq<char>>,
    pub projects: Seq<Seq<char>>,
}

impl PermissionAggregation {
    /// The aggregation as plain sequences.
    pub open spec fn aggregation_view(&self) -> AggregationView {
        AggregationView {
            allow: perm_map_view(self.allow_map@),
            deny: perm_map_view(self.deny_map@),
            ask: perm_map_view(self.ask_map@),
            mcp_enabled: strings_view(self.mcp_enabled_projects@),
            projects: strings_view(self.projects@),
        }
    }
}

/// The aggregation of the projects `ps`, added in order to a new one.
pub open spec fn aggregated(ps: Seq<(String, ProjectSettings)>) -> AggregationView
    decreases ps.len(),
{
    if ps.len() == 0 {
        AggregationView { allow: seq![], deny: seq![], ask: seq![], mcp_enabled: seq![], projects: seq![] }
    } else {
        let prev = aggregated(ps.drop_last());
        let name = ps.last().0@;
        let st = ps.last().1;
        AggregationView {
            allow: add_users(prev.allow, st.permissions.allow@, name),
            deny: add_users(prev.deny, st.permissions.deny@, name),
            ask: add_users(prev.ask, st.permissions.ask@, name),
            mcp_enabled: if st.enable_all_project_mcp_servers { prev.mcp_enabled.push(name) } else { prev.mcp_enabled },
            projects: prev.projects.push(name),
        }
    }
}

/// Every project of `ps` has settings whose permissions can be parsed.
pub open spec fn all_settings_parse_ok(ps: Seq<(String, ProjectSettings)>) -> bool {
    forall|i: int| 0 <= i < ps.len() ==> settings_parse_ok(#[trigger] ps[i].1)
}

/// Aggregates the settings of the projects, in order, into a new aggregation.
pub fn aggregate_projects(projects: &Vec<(String, ProjectSettings)>) -> (r: PermissionAggregation)
    requires
        all_settings_parse_ok(projects@),
    ensures
        r.well_formed(),
        r.aggregation_view() == aggregated(projects@),
{
    let mut agg = PermissionAggregation::new();
    proof {
        assert(projects@.take(0).len() == 0);
        assert(perm_map_view(agg.allow_map@) =~= seq![]);
        assert(perm_map_view(agg.deny_map@) =~= seq![]);
        assert(perm_map_view(agg.ask_map@) =~= seq![]);
        assert(strings_view(agg.mcp_enabled_projects@) =~= seq![]);
        assert(strings_view(agg.projects@) =~= seq![]);
        assert(agg.aggregation_view() == aggregated(projects@.take(0)));
    }
    let mut i: usize = 0;
    while i < projects.len()
        invariant
            i <= projects@.len(),
            all_settings_parse_ok(projects@),
            agg.well_formed(),
            agg.aggregation_view() == aggregated(projects@.take(i as int)),
        decreases projects.len() - i,
    {
        let ghost before = agg.aggregation_view();
        assert(settings_parse_ok(projects@[i as int].1));
        let name = projects[i].0.clone();
        agg.add_project(name, &projects[i].1);
        proof {
            assert(projects@.take(i + 1).drop_last() =~= projects@.take(i as int));
            assert(projects@.take(i + 1).last() == projects@[i as int]);
            assert(strings_view(agg.mcp_enabled_projects@) =~= if projects@[i as int].1.enable_all_project_mcp_servers {
                before.mcp_enabled.push(projects@[i as int].0@)
            } else {
                before.mcp_enabled
            });
            assert(strings_view(agg.projects@) =~= before.projects.push(projects@[i as int].0@));
            assert(agg.aggregation_view() == aggregated(projects@.take(i + 1)));
        }
        i = i + 1;
    }
    assert(projects@.take(projects@.len() as int) =~= projects@);
    agg
}

/// The projects of an aggregation are the names added, in order; so its
/// project count is the number of different names among them, and after
/// additions under `k` pairwise different names it is `k`.
pub proof fn law_aggregated_project_count(ps: Seq<(String, ProjectSettings)>)
    ensures
        aggregated(ps).projects == ps.map_values(|p: (String, ProjectSettings)| p.0@),
        aggregated(ps).projects.to_set().len() <= ps.len(),
        aggregated(ps).projects.no_duplicates() ==> aggregated(ps).projects.to_set().len() == ps.len(),
    decreases ps.len(),
{
    if ps.len() > 0 {
        law_aggregated_project_count(ps.drop_last());
        assert(ps.map_values(|p: (String, ProjectSettings)| p.0@) =~= ps.drop_last().map_values(
            |p: (String, ProjectSettings)| p.0@,
        ).push(ps.last().0@));
    }
    law_project_count_after_additions(aggregated(ps).projects, seq![]);
}

/// The top permissions of a table are as many as asked for where the table
/// has that many, most projects first, each with the number of projects that
/// its slot lists.
pub proof fn law_top_permissions_ranked(m: Seq<(Permission, Vec<String>)>, n: usize)
    ensures
        ({
            let r = sort_desc(perm_counts(m)).take(vstd::math::min(n as int, m.len() as int));
            &&& r.len() == vstd::math::min(n as int, m.len() as int)
            &&& forall|i: int, j: int| 0 <= i <= j < r.len() ==> (#[trigger] r[j]).1 <= (#[trigger] r[i]).1
            &&& forall|j: int|
                0 <= j < r.len() ==> exists|k: int|
                    0 <= k < m.len() && (#[trigger] m[k]).0 == (#[trigger] r[j]).0 && m[k].1@.len() == r[j].1
        }),
{
    let c = perm_counts(m);
    let sorted = sort_desc(c);
    crate::sorting::lemma_sort_desc(c);
    sorted.to_multiset_ensures();
    c.to_multiset_ensures();
    let r = sorted.take(vstd::math::min(n as int, m.len() as int));
    assert forall|j: int| 0 <= j < r.len() implies exists|k: int|
        0 <= k < m.len() && (#[trigger] m[k]).0 == (#[trigger] r[j]).0 && m[k].1@.len() == r[j].1 by {
        assert(r[j] == sorted[j]);
        assert(sorted.contains(sorted[j]));
        assert(c.to_multiset().count(sorted[j]) > 0);
        let k = choose|k: int| 0 <= k < c.len() && c[k] == sorted[j];
        assert(m[k].1@.len() == m[k].1.len());
        assert(m[k].0 == r[j].0);
    }
    assert forall|i: int, j: int| 0 <= i <= j < r.len() implies (#[trigger] r[j]).1 <= (#[trigger] r[i]).1 by {
        assert(r[i] == sorted[i] && r[j] == sorted[j]);
    }
}

/// Whether every permission string of a list can be parsed.
fn all_can_parse(v: &Vec<String>) -> (r: bool)
    ensures
        r == all_parse_ok(v@),
{
    let mut i: usize = 0;
    while i < v.len()
        invariant
            i <= v@.len(),
            forall|j: int| 0 <= j < i ==> parse_ok((#[trigger] v@[j])@),
        decreases v.len() - i,
    {
        if !Permission::can_parse(v[i].as_str()) {
            return false;
        }
        i = i + 1;
    }
    true
}

/// The most used permissions of a map, most projects first.
fn top_of(m: &Vec<(Permission, Vec<String>)>, n: usize) -> (r: Vec<(Permission, usize)>)
    requires
        perms_distinct(perm_map_view(m@)),
    ensures
        r@ == sort_desc(perm_counts(m@)).take(vstd::math::min(n as int, m@.len() as int)),
        forall|i: int, j: int| 0 <= i < j < r@.len() ==> (#[trigger] r@[i]).0@ != (#[trigger] r@[j]).0@,
{
    proof {
        lemma_perms_apart(m@);
        crate::sorting::lemma_sort_desc_keeps_apart(perm_counts(m@), |a: Permission, b: Permission| a@ == b@);
    }
    let mut perms: Vec<(Permission, usize)> = Vec::new();
    let mut i: usize = 0;
    while i < m.len()
        invariant
            i <= m@.len(),
            perms@ == perm_counts(m@).subrange(0, i as int),
        decreases m.len() - i,
    {
        let p = m[i].0.duplicate();
        perms.push((p, m[i].1.len()));
        i = i + 1;
        assert(perms@ =~= perm_counts(m@).subrange(0, i as int));
    }
    assert(perm_counts(m@).subrange(0, m@.len() as int) == perm_counts(m@));
    let sorted = sort_by_count_desc(perms);
    proof {
        crate::sorting::lemma_sort_desc(perm_counts(m@));
    }
    let limit = if n < sorted.len() { n } else { sorted.len() };
    let mut sorted = sorted;
    let ghost sv = sorted@;
    let mut r: Vec<(Permission, usize)> = Vec::new();
    let mut j: usize = 0;
    while j < limit
        invariant
            j <= limit <= sv.len(),
            sorted@.len() + j == sv.len(),
            sorted@ == sv.subrange(j as int, sv.len() as int),
            r@ == sv.take(j as int),
        decreases limit - j,
    {
        let item = sorted.remove(0);
        r.push(item);
        j = j + 1;
        assert(r@ =~= sv.take(j as int));
    }
    r
}

/// Whether some string of `v` holds the characters of `s`.
fn contains_string(v: &Vec<String>, s: &str) -> (r: bool)
    ensures
        r == v@.map_values(|x: String| x@).contains(s@),
{
    let ghost vv = v@.map_values(|x: String| x@);
    let mut k: usize = 0;
    while k < v.len()
        invariant
            k <= v@.len(),
            vv == v@.map_values(|x: String| x@),
            forall|t: int| 0 <= t < k ==> vv[t] != s@,
        decreases v.len() - k,
    {
        if str_equal(v[k].as_str(), s) {
            assert(vv[k as int] == s@);
            return true;
        }
        k = k + 1;
    }
    false
}

} // verus!
