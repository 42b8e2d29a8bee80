//! The Promptfile language: `FROM`, `LAYER`, `PARAM`, `VAR`, `TASK`, `INCLUDE`
//! directives and `#` comments, one per line.
use vstd::prelude::*;
use crate::error::{PromptHubError, error_text};
use crate::strmap::{StrMap, Entries, entries_insert};
use crate::text::{
    chars_of, string_of, owned, concat2, concat3, sub_vec, trim, trim_vec, trim_str, split_seq,
    split_all, split_once, split_once_vec, lines, lines_vec, vviews, decimal, decimal_string,
    upper, to_uppercase, debug_str, debug_quoted, str_eq, vec_eq, lemma_split_once_concat,
    lemma_split_once_none, lemma_find_first_props, lemma_trim_idempotent, lemma_trim_within,
    find_first, trim_start, trim_end, is_ws,
};

verus! {

// ───────────────────────── layer references ─────────────────────────

/// Reference to a layer with version.
#[derive(Debug)]
pub struct LayerRef {
    /// Namespace/name, e.g. "base/code-critic"
    pub source: String,
    /// Version string, e.g. "v1.0", "latest", ""
    pub version: String,
}

impl View for LayerRef {
    type V = (Seq<char>, Seq<char>);

    open spec fn view(&self) -> (Seq<char>, Seq<char>) {
        (self.source@, self.version@)
    }
}

/// A path component that is `.` or `..`.
pub open spec fn is_dot_part(p: Seq<char>) -> bool {
    p == seq!['.'] || p == seq!['.', '.']
}

/// Whether some `/`-separated component of `s` is `.` or `..`.
pub open spec fn has_dot_part(s: Seq<char>) -> bool {
    exists|j: int| 0 <= j < split_seq(s, '/').len() && is_dot_part(#[trigger] split_seq(s, '/')[j])
}

/// Source and version of a reference text: split at the first `:`, both trimmed;
/// without a `:` the version is `latest`.
pub open spec fn ref_parts(input: Seq<char>) -> (Seq<char>, Seq<char>) {
    match split_once(input, ':') {
        Some((a, b)) => (trim(a), trim(b)),
        None => (trim(input), "latest"@),
    }
}

/// The result of parsing a layer reference: the (source, version) pair or the error message.
pub open spec fn spec_parse_ref(input: Seq<char>) -> Result<(Seq<char>, Seq<char>), Seq<char>> {
    let (src, ver) = ref_parts(input);
    if src.len() == 0 {
        Err("Empty layer reference: "@ + input)
    } else if has_dot_part(src) {
        Err("Layer reference '"@ + src + "' contains invalid path components ('.' or '..')"@)
    } else {
        Ok((src, ver))
    }
}

/// How a layer reference is displayed: the version is omitted when empty or `latest`.
pub open spec fn spec_display(r: (Seq<char>, Seq<char>)) -> Seq<char> {
    if r.1.len() == 0 || r.1 == "latest"@ {
        r.0
    } else {
        r.0 + ":"@ + r.1
    }
}

fn has_dot_component(v: &Vec<char>) -> (b: bool)
    ensures
        b == has_dot_part(v@),
{
    let parts = split_all(v, '/');
    let dot: Vec<char> = vec!['.'];
    let dotdot: Vec<char> = vec!['.', '.'];
    assert(dot@ =~= seq!['.']);
    assert(dotdot@ =~= seq!['.', '.']);
    let mut i: usize = 0;
    while i < parts.len()
        invariant
            i <= parts.len(),
            vviews(parts@) == split_seq(v@, '/'),
            dot@ == seq!['.'],
            dotdot@ == seq!['.', '.'],
            forall|j: int| 0 <= j < i ==> !is_dot_part(#[trigger] split_seq(v@, '/')[j]),
        decreases parts.len() - i,
    {
        assert(vviews(parts@)[i as int] == parts[i as int]@);
        if vec_eq(&parts[i], &dot) || vec_eq(&parts[i], &dotdot) {
            assert(is_dot_part(split_seq(v@, '/')[i as int]));
            return true;
        }
        i = i + 1;
    }
    false
}

fn parse_error(m: String) -> (e: PromptHubError)
    ensures
        e == PromptHubError::ParseError(m),
{
    PromptHubError::ParseError(m)
}

impl LayerRef {
    /// Parses `source[:version]`; the version defaults to `latest`. Rejects an empty
    /// source and sources with `.` or `..` path components.
    pub fn parse(input: &str) -> (r: Result<LayerRef, PromptHubError>)
        ensures
            match spec_parse_ref(input@) {
                Ok(v) => r matches Ok(x) && x@ == v,
                Err(m) => r matches Err(PromptHubError::ParseError(x)) && x@ == m,
            },
    {
        let v = chars_of(input);
        let (src, ver) = match split_once_vec(&v, ':') {
            Some((a, b)) => {
                let s = trim_vec(&a);
                let t = trim_vec(&b);
                (string_of(&s), string_of(&t))
            },
            None => {
                let s = trim_vec(&v);
                (string_of(&s), owned("latest"))
            },
        };
        let src_chars = chars_of(src.as_str());
        if src_chars.len() == 0 {
            return Err(parse_error(concat2("Empty layer reference: ", input)));
        }
        if has_dot_component(&src_chars) {
            return Err(
                parse_error(
                    concat3(
                        "Layer reference '",
                        src.as_str(),
                        "' contains invalid path components ('.' or '..')",
                    ),
                ),
            );
        }
        Ok(LayerRef { source: src, version: ver })
    }

    /// The reference as written: `source`, or `source:version` unless the version is
    /// empty or `latest`.
    pub fn display(&self) -> (r: String)
        ensures
            r@ == spec_display(self@),
    {
        if self.version.as_str().is_empty() || str_eq(self.version.as_str(), "latest") {
            self.source.clone()
        } else {
            concat3(self.source.as_str(), ":", self.version.as_str())
        }
    }
}

impl Clone for LayerRef {
    fn clone(&self) -> (r: Self)
        ensures
            r@ == self@,
    {
        LayerRef { source: self.source.clone(), version: self.version.clone() }
    }
}

/// The views of a sequence of layer references.
pub open spec fn refs_view(v: Seq<LayerRef>) -> Seq<(Seq<char>, Seq<char>)> {
    Seq::new(v.len(), |i: int| v[i]@)
}

/// Writing a layer reference and parsing it back gives the same reference: for a trimmed,
/// non-empty source without `:` or `.`/`..` components and a trimmed, non-empty version
/// (`latest` is omitted when written and restored when read).
pub proof fn law_ref_display_roundtrip(source: Seq<char>, version: Seq<char>)
    requires
        source.len() > 0,
        trim(source) == source,
        !source.contains(':'),
        !has_dot_part(source),
        version.len() > 0,
        trim(version) == version,
    ensures
        spec_parse_ref(spec_display((source, version))) == Ok::<(Seq<char>, Seq<char>), Seq<char>>((source, version)),
{
    if version == "latest"@ {
        lemma_split_once_none(source, ':');
    } else {
        assert(":"@ =~= seq![':']) by {
            reveal_strlit(":");
        }
        lemma_split_once_concat(source, ':', version);
        assert(source + ":"@ + version =~= source + seq![':'] + version);
    }
}

/// Every reference that parses with a non-empty version is written back by `display` as
/// a text that parses to the same reference (`latest` is omitted when written and
/// restored when read).
pub proof fn law_parse_display_roundtrip(input: Seq<char>, r: (Seq<char>, Seq<char>))
    requires
        spec_parse_ref(input) == Ok::<(Seq<char>, Seq<char>), Seq<char>>(r),
        r.1.len() > 0,
    ensures
        spec_parse_ref(spec_display(r)) == Ok::<(Seq<char>, Seq<char>), Seq<char>>(r),
{
    lemma_find_first_props(input, ':');
    match split_once(input, ':') {
        Some((a, b)) => {
            lemma_trim_idempotent(a);
            lemma_trim_idempotent(b);
            let k = lemma_trim_within(a);
            assert(a =~= input.take(find_first(input, ':')));
            assert forall|j: int| 0 <= j < trim(a).len() implies trim(a)[j] != ':' by {
                assert(trim(a)[j] == a[k + j]);
            }
        },
        None => {
            lemma_trim_idempotent(input);
            let k = lemma_trim_within(input);
            assert forall|j: int| 0 <= j < trim(input).len() implies trim(input)[j] != ':' by {
                assert(trim(input)[j] == input[k + j]);
            }
            reveal_strlit("latest");
            assert(trim_start("latest"@) == "latest"@);
            assert(trim_end("latest"@) == "latest"@);
        },
    }
    law_ref_display_roundtrip(r.0, r.1);
}

// ───────────────────────── instructions ─────────────────────────

/// A single instruction parsed from a Promptfile.
#[derive(Debug)]
pub enum Instruction {
    From(LayerRef),
    Layer(LayerRef),
    Param(String, String),
    Var(String, String),
    Task(String),
    Include(String),
    Comment(String),
}

/// The meaning of an instruction.
pub enum SpecInst {
    From((Seq<char>, Seq<char>)),
    Layer((Seq<char>, Seq<char>)),
    Param(Seq<char>, Seq<char>),
    Var(Seq<char>, Seq<char>),
    Task(Seq<char>),
    Include(Seq<char>),
    Comment(Seq<char>),
}

impl View for Instruction {
    type V = SpecInst;

    open spec fn view(&self) -> SpecInst {
        match self {
            Instruction::From(r) => SpecInst::From(r@),
            Instruction::Layer(r) => SpecInst::Layer(r@),
            Instruction::Param(k, v) => SpecInst::Param(k@, v@),
            Instruction::Var(k, v) => SpecInst::Var(k@, v@),
            Instruction::Task(t) => SpecInst::Task(t@),
            Instruction::Include(p) => SpecInst::Include(p@),
            Instruction::Comment(c) => SpecInst::Comment(c@),
        }
    }
}

/// The views of a sequence of instructions.
pub open spec fn insts_view(v: Seq<Instruction>) -> Seq<SpecInst> {
    Seq::new(v.len(), |i: int| v[i]@)
}

/// `Line {n}: ` prefix of line-level errors.
pub open spec fn line_prefix(n: nat) -> Seq<char> {
    "Line "@ + decimal(n) + ": "@
}

/// Parsing a (possibly quoted) value: matching surrounding quotes are removed; an
/// unmatched opening quote or an empty value is an error.
pub open spec fn spec_quoted(s: Seq<char>, n: nat) -> Result<Seq<char>, Seq<char>> {
    let t = trim(s);
    if t.len() >= 2 && ((t[0] == '"' && t.last() == '"') || (t[0] == '\'' && t.last() == '\'')) {
        Ok(t.subrange(1, t.len() - 1))
    } else if t.len() > 0 && (t[0] == '"' || t[0] == '\'') {
        Err(line_prefix(n) + "Mismatched quote in: "@ + debug_str(t))
    } else if t.len() > 0 {
        Ok(t)
    } else {
        Err(line_prefix(n) + "Expected a value"@)
    }
}

/// A value between matching quotes, single or double, parses to the text between them,
/// whatever that text is; a value without quotes parses to itself, trimmed.
pub proof fn law_quoted_value(x: Seq<char>, n: nat)
    ensures
        spec_quoted(seq!['\''] + x + seq!['\''], n) == Ok::<Seq<char>, Seq<char>>(x),
        spec_quoted(seq!['"'] + x + seq!['"'], n) == Ok::<Seq<char>, Seq<char>>(x),
        trim(x) == x && x.len() > 0 && x[0] != '\'' && x[0] != '"' ==> spec_quoted(x, n) == Ok::<Seq<char>, Seq<char>>(x),
{
    let a = seq!['\''] + x + seq!['\''];
    let b = seq!['"'] + x + seq!['"'];
    assert(!is_ws(a[0]) && !is_ws(a.last()));
    assert(trim_start(a) == a);
    assert(trim_end(a) == a);
    assert(a.subrange(1, a.len() - 1) =~= x);
    assert(!is_ws(b[0]) && !is_ws(b.last()));
    assert(trim_start(b) == b);
    assert(trim_end(b) == b);
    assert(b.subrange(1, b.len() - 1) =~= x);
}

/// `key 'value'` and `key "value"` (a key without spaces) read as that key and the text
/// between the quotes.
pub proof fn law_key_quoted_value(k: Seq<char>, x: Seq<char>, n: nat)
    requires
        !k.contains(' '),
    ensures
        spec_key_value(k + seq![' '] + (seq!['\''] + x + seq!['\'']), n) == Ok::<(Seq<char>, Seq<char>), Seq<char>>((k, x)),
        spec_key_value(k + seq![' '] + (seq!['"'] + x + seq!['"']), n) == Ok::<(Seq<char>, Seq<char>), Seq<char>>((k, x)),
{
    law_quoted_value(x, n);
    let a = seq!['\''] + x + seq!['\''];
    let b = seq!['"'] + x + seq!['"'];
    lemma_split_once_concat(k, ' ', a);
    lemma_split_once_concat(k, ' ', b);
    lemma_trim_idempotent(a);
    lemma_trim_idempotent(b);
    assert(trim(a) == a);
    assert(trim(b) == b);
}

/// Parsing `key value`: the key is up to the first space, the value is a quoted string.
pub open spec fn spec_key_value(rest: Seq<char>, n: nat) -> Result<(Seq<char>, Seq<char>), Seq<char>> {
    match split_once(rest, ' ') {
        None => Err(line_prefix(n) + "Expected key and value"@),
        Some((k, v)) => match spec_quoted(trim(v), n) {
            Ok(val) => Ok((k, val)),
            Err(m) => Err(m),
        },
    }
}

/// The directive word (upper-cased) and the trimmed rest of a non-comment line.
pub open spec fn directive_parts(line: Seq<char>) -> (Seq<char>, Seq<char>) {
    match split_once(line, ' ') {
        Some((a, b)) => (upper(a), trim(b)),
        None => (upper(line), Seq::<char>::empty()),
    }
}

/// The error message for an unknown directive.
pub open spec fn unknown_directive(n: nat, d: Seq<char>) -> Seq<char> {
    line_prefix(n) + "Unknown directive '"@ + d
        + "'. Valid directives: FROM, LAYER, PARAM, VAR, TASK, INCLUDE"@
}

/// Parsing one raw line numbered `n`: `None` for a blank line.
pub open spec fn spec_parse_line(raw: Seq<char>, n: nat) -> Result<Option<SpecInst>, Seq<char>> {
    let line = trim(raw);
    if line.len() == 0 {
        Ok(None)
    } else if line[0] == '#' {
        Ok(Some(SpecInst::Comment(trim(line.drop_first()))))
    } else {
        let (d, rest) = directive_parts(line);
        if d == "FROM"@ {
            match spec_parse_ref(rest) {
                Ok(r) => Ok(Some(SpecInst::From(r))),
                Err(m) => Err(line_prefix(n) + "Parse error in Promptfile: "@ + m),
            }
        } else if d == "LAYER"@ {
            match spec_parse_ref(rest) {
                Ok(r) => Ok(Some(SpecInst::Layer(r))),
                Err(m) => Err(line_prefix(n) + "Parse error in Promptfile: "@ + m),
            }
        } else if d == "PARAM"@ {
            match spec_key_value(rest, n) {
                Ok((k, v)) => Ok(Some(SpecInst::Param(k, v))),
                Err(m) => Err(m),
            }
        } else if d == "VAR"@ {
            match spec_key_value(rest, n) {
                Ok((k, v)) => Ok(Some(SpecInst::Var(k, v))),
                Err(m) => Err(m),
            }
        } else if d == "TASK"@ {
            match spec_quoted(rest, n) {
                Ok(t) => Ok(Some(SpecInst::Task(t))),
                Err(m) => Err(m),
            }
        } else if d == "INCLUDE"@ {
            match spec_quoted(rest, n) {
                Ok(p) => Ok(Some(SpecInst::Include(p))),
                Err(m) => Err(m),
            }
        } else {
            Err(unknown_directive(n, d))
        }
    }
}

/// Parsing lines `i..` (line numbers start at 1), after `acc` was parsed from lines `..i`;
/// the first failing line decides the error.
pub open spec fn parse_lines_from(ls: Seq<Seq<char>>, i: int, acc: Seq<SpecInst>) -> Result<
    Seq<SpecInst>,
    Seq<char>,
>
    decreases ls.len() - i,
{
    if i < 0 || i >= ls.len() {
        Ok(acc)
    } else {
        match spec_parse_line(ls[i], (i + 1) as nat) {
            Err(m) => Err(m),
            Ok(None) => parse_lines_from(ls, i + 1, acc),
            Ok(Some(x)) => parse_lines_from(ls, i + 1, acc.push(x)),
        }
    }
}

/// The instructions of a Promptfile text, or the first line's error.
pub open spec fn spec_instructions(content: Seq<char>) -> Result<Seq<SpecInst>, Seq<char>> {
    parse_lines_from(lines(content), 0, seq![])
}

fn line_prefix_exec(n: usize) -> (r: String)
    ensures
        r@ == line_prefix(n as nat),
{
    let d = decimal_string(n);
    concat3("Line ", d.as_str(), ": ")
}

fn parse_quoted_string(s: &Vec<char>, line_num: usize) -> (r: Result<String, PromptHubError>)
    ensures
        match spec_quoted(s@, line_num as nat) {
            Ok(v) => r matches Ok(x) && x@ == v,
            Err(m) => r matches Err(PromptHubError::ParseError(x)) && x@ == m,
        },
{
    let t = trim_vec(s);
    let n = t.len();
    if n >= 2 && ((t[0] == '"' && t[n - 1] == '"') || (t[0] == '\'' && t[n - 1] == '\'')) {
        Ok(string_of(&sub_vec(&t, 1, n - 1)))
    } else if n > 0 && (t[0] == '"' || t[0] == '\'') {
        let p = line_prefix_exec(line_num);
        let ts = string_of(&t);
        let q = debug_quoted(ts.as_str());
        Err(parse_error(concat3(p.as_str(), "Mismatched quote in: ", q.as_str())))
    } else if n > 0 {
        Ok(string_of(&t))
    } else {
        let p = line_prefix_exec(line_num);
        Err(parse_error(concat2(p.as_str(), "Expected a value")))
    }
}

fn parse_key_value(rest: &Vec<char>, line_num: usize) -> (r: Result<(String, String), PromptHubError>)
    ensures
        match spec_key_value(rest@, line_num as nat) {
            Ok((k, v)) => r matches Ok((x, y)) && x@ == k && y@ == v,
            Err(m) => r matches Err(PromptHubError::ParseError(x)) && x@ == m,
        },
{
    match split_once_vec(rest, ' ') {
        None => {
            let p = line_prefix_exec(line_num);
            Err(parse_error(concat2(p.as_str(), "Expected key and value")))
        },
        Some((k, v)) => {
            let tv = trim_vec(&v);
            let value = parse_quoted_string(&tv, line_num)?;
            Ok((string_of(&k), value))
        },
    }
}

fn ref_error(line_num: usize, e: PromptHubError) -> (r: PromptHubError)
    ensures
        r matches PromptHubError::ParseError(x) && x@ == line_prefix(line_num as nat) + error_text(e),
{
    let p = line_prefix_exec(line_num);
    let m = e.message();
    parse_error(concat2(p.as_str(), m.as_str()))
}

fn parse_line(raw: &Vec<char>, n: usize) -> (r: Result<Option<Instruction>, PromptHubError>)
    ensures
        match spec_parse_line(raw@, n as nat) {
            Ok(None) => r matches Ok(None),
            Ok(Some(i)) => r matches Ok(Some(x)) && x@ == i,
            Err(m) => r matches Err(PromptHubError::ParseError(x)) && x@ == m,
        },
{
    let line = trim_vec(raw);
    if line.len() == 0 {
        return Ok(None);
    }
    if line[0] == '#' {
        let rest = sub_vec(&line, 1, line.len());
        assert(rest@ =~= line@.drop_first());
        let c = trim_vec(&rest);
        return Ok(Some(Instruction::Comment(string_of(&c))));
    }
    let (word, rest) = match split_once_vec(&line, ' ') {
        Some((a, b)) => (a, trim_vec(&b)),
        None => (line.clone(), Vec::new()),
    };
    proof {
        assert(rest@ == directive_parts(line@).1);
    }
    let ws = string_of(&word);
    let d = to_uppercase(ws.as_str());
    let rest_s = string_of(&rest);
    if str_eq(d.as_str(), "FROM") {
        match LayerRef::parse(rest_s.as_str()) {
            Ok(r) => Ok(Some(Instruction::From(r))),
            Err(e) => Err(ref_error(n, e)),
        }
    } else if str_eq(d.as_str(), "LAYER") {
        match LayerRef::parse(rest_s.as_str()) {
            Ok(r) => Ok(Some(Instruction::Layer(r))),
            Err(e) => Err(ref_error(n, e)),
        }
    } else if str_eq(d.as_str(), "PARAM") {
        let (k, v) = parse_key_value(&rest, n)?;
        Ok(Some(Instruction::Param(k, v)))
    } else if str_eq(d.as_str(), "VAR") {
        let (k, v) = parse_key_value(&rest, n)?;
        Ok(Some(Instruction::Var(k, v)))
    } else if str_eq(d.as_str(), "TASK") {
        let t = parse_quoted_string(&rest, n)?;
        Ok(Some(Instruction::Task(t)))
    } else if str_eq(d.as_str(), "INCLUDE") {
        let p = parse_quoted_string(&rest, n)?;
        Ok(Some(Instruction::Include(p)))
    } else {
        let p = line_prefix_exec(n);
        let a = concat3(p.as_str(), "Unknown directive '", d.as_str());
        Err(
            parse_error(
                concat2(a.as_str(), "'. Valid directives: FROM, LAYER, PARAM, VAR, TASK, INCLUDE"),
            ),
        )
    }
}

fn parse_instructions(content: &str) -> (r: Result<Vec<Instruction>, PromptHubError>)
    ensures
        match spec_instructions(content@) {
            Ok(v) => r matches Ok(x) && insts_view(x@) == v,
            Err(m) => r matches Err(PromptHubError::ParseError(x)) && x@ == m,
        },
{
    let chars = chars_of(content);
    let ls = lines_vec(&chars);
    let ghost lsv = lines(content@);
    let mut out: Vec<Instruction> = Vec::new();
    let mut i: usize = 0;
    assert(insts_view(out@) =~= Seq::<SpecInst>::empty());
    while i < ls.len()
        invariant
            i <= ls.len(),
            vviews(ls@) == lsv,
            lsv == lines(content@),
            parse_lines_from(lsv, 0, seq![]) == parse_lines_from(lsv, i as int, insts_view(out@)),
        decreases ls.len() - i,
    {
        assert(vviews(ls@)[i as int] == ls@[i as int]@);
        let ghost before = insts_view(out@);
        match parse_line(&ls[i], i + 1) {
            Ok(None) => {},
            Ok(Some(x)) => {
                out.push(x);
                assert(insts_view(out@) =~= before.push(x@));
            },
            Err(e) => {
                return Err(e);
            },
        }
        i = i + 1;
    }
    Ok(out)
}

// ───────────────────────── Promptfile ─────────────────────────

/// The meaning of a Promptfile while it is being assembled.
pub struct PfView {
    pub from: Option<(Seq<char>, Seq<char>)>,
    pub layers: Seq<(Seq<char>, Seq<char>)>,
    pub params: Entries,
    pub vars: Entries,
    pub task: Option<Seq<char>>,
    pub includes: Seq<Seq<char>>,
}

/// Parsed representation of a Promptfile.
#[derive(Debug)]
pub struct Promptfile {
    pub from: LayerRef,
    pub layers: Vec<LayerRef>,
    pub params: StrMap,
    pub vars: StrMap,
    pub task: Option<String>,
    pub includes: Vec<String>,
}

/// The view of an optional string.
pub open spec fn opt_view(o: Option<String>) -> Option<Seq<char>> {
    match o {
        Some(s) => Some(s@),
        None => None,
    }
}

impl View for Promptfile {
    type V = PfView;

    open spec fn view(&self) -> PfView {
        PfView {
            from: Some(self.from@),
            layers: refs_view(self.layers@),
            params: self.params@,
            vars: self.vars@,
            task: opt_view(self.task),
            includes: self.includes.deep_view(),
        }
    }
}

/// The state before the first instruction.
pub open spec fn empty_pf() -> PfView {
    PfView {
        from: None,
        layers: seq![],
        params: seq![],
        vars: seq![],
        task: None,
        includes: seq![],
    }
}

/// The error for a Promptfile whose first directive is not `FROM`.
pub open spec fn from_first_error() -> Seq<char> {
    "Missing FROM directive; Promptfile must start with FROM"@
}

/// Applying one instruction: `FROM` comes before every other directive (comments aside)
/// and only once; at most one `TASK`; `PARAM`/`VAR` insert (a later key replaces an
/// earlier one); `LAYER`/`INCLUDE` append; comments are ignored.
pub open spec fn build_step(st: PfView, inst: SpecInst) -> Result<PfView, Seq<char>> {
    if st.from is None && !(inst is From) && !(inst is Comment) {
        Err(from_first_error())
    } else {
    match inst {
        SpecInst::From(r) => if st.from is Some {
            Err("Multiple FROM directives found; only one is allowed"@)
        } else {
            Ok(PfView { from: Some(r), ..st })
        },
        SpecInst::Layer(r) => Ok(PfView { layers: st.layers.push(r), ..st }),
        SpecInst::Param(k, v) => Ok(PfView { params: entries_insert(st.params, k, v), ..st }),
        SpecInst::Var(k, v) => Ok(PfView { vars: entries_insert(st.vars, k, v), ..st }),
        SpecInst::Task(t) => if st.task is Some {
            Err("Multiple TASK directives found; only one is allowed"@)
        } else {
            Ok(PfView { task: Some(t), ..st })
        },
        SpecInst::Include(p) => Ok(PfView { includes: st.includes.push(p), ..st }),
        SpecInst::Comment(_) => Ok(st),
    }
    }
}

/// Applying instructions `i..` to `st`.
pub open spec fn build_from(insts: Seq<SpecInst>, i: int, st: PfView) -> Result<PfView, Seq<char>>
    decreases insts.len() - i,
{
    if i < 0 || i >= insts.len() {
        Ok(st)
    } else {
        match build_step(st, insts[i]) {
            Err(m) => Err(m),
            Ok(st2) => build_from(insts, i + 1, st2),
        }
    }
}

/// Assembling a Promptfile from instructions: a `FROM` is required.
pub open spec fn spec_build(insts: Seq<SpecInst>) -> Result<PfView, Seq<char>> {
    match build_from(insts, 0, empty_pf()) {
        Err(m) => Err(m),
        Ok(st) => if st.from is None {
            Err(from_first_error())
        } else {
            Ok(st)
        },
    }
}

/// Parsing a Promptfile text.
pub open spec fn spec_parse(content: Seq<char>) -> Result<PfView, Seq<char>> {
    match spec_instructions(content) {
        Err(m) => Err(m),
        Ok(insts) => spec_build(insts),
    }
}

fn build_promptfile(instructions: Vec<Instruction>) -> (r: Result<Promptfile, PromptHubError>)
    ensures
        match spec_build(insts_view(instructions@)) {
            Ok(v) => r matches Ok(x) && x@ == v,
            Err(m) => r matches Err(PromptHubError::ParseError(x)) && x@ == m,
        },
{
    let ghost iv = insts_view(instructions@);
    let mut from: Option<LayerRef> = None;
    let mut layers: Vec<LayerRef> = Vec::new();
    let mut params = StrMap::new();
    let mut vars = StrMap::new();
    let mut task: Option<String> = None;
    let mut includes: Vec<String> = Vec::new();
    let mut i: usize = 0;
    assert(refs_view(layers@) =~= Seq::<(Seq<char>, Seq<char>)>::empty());
    assert(includes.deep_view() =~= Seq::<Seq<char>>::empty());
    while i < instructions.len()
        invariant
            i <= instructions.len(),
            iv == insts_view(instructions@),
            build_from(iv, 0, empty_pf()) == build_from(
                iv,
                i as int,
                PfView {
                    from: match from {
                        Some(f) => Some(f@),
                        None => None,
                    },
                    layers: refs_view(layers@),
                    params: params@,
                    vars: vars@,
                    task: opt_view(task),
                    includes: includes.deep_view(),
                },
            ),
        decreases instructions.len() - i,
    {
        assert(iv[i as int] == instructions@[i as int]@);
        let directive = match &instructions[i] {
            Instruction::From(_) => false,
            Instruction::Comment(_) => false,
            _ => true,
        };
        if directive && from.is_none() {
            return Err(parse_error(owned("Missing FROM directive; Promptfile must start with FROM")));
        }
        match &instructions[i] {
            Instruction::From(r) => {
                if from.is_some() {
                    return Err(parse_error(owned("Multiple FROM directives found; only one is allowed")));
                }
                from = Some(r.clone());
            },
            Instruction::Layer(r) => {
                let ghost before = refs_view(layers@);
                layers.push(r.clone());
                assert(refs_view(layers@) =~= before.push(r@));
            },
            Instruction::Param(k, v) => {
                params.insert(k.clone(), v.clone());
            },
            Instruction::Var(k, v) => {
                vars.insert(k.clone(), v.clone());
            },
            Instruction::Task(t) => {
                if task.is_some() {
                    return Err(parse_error(owned("Multiple TASK directives found; only one is allowed")));
                }
                task = Some(t.clone());
            },
            Instruction::Include(p) => {
                let ghost before = includes.deep_view();
                includes.push(p.clone());
                assert(includes.deep_view() =~= before.push(p@));
            },
            Instruction::Comment(_) => {},
        }
        i = i + 1;
    }
    match from {
        None => Err(parse_error(owned("Missing FROM directive; Promptfile must start with FROM"))),
        Some(f) => Ok(Promptfile { from: f, layers, params, vars, task, includes }),
    }
}

/// Parses a Promptfile from its text.
pub fn parse(content: &str) -> (r: Result<Promptfile, PromptHubError>)
    ensures
        match spec_parse(content@) {
            Ok(v) => r matches Ok(x) && x@ == v,
            Err(m) => r matches Err(PromptHubError::ParseError(x)) && x@ == m,
        },
{
    let instructions = parse_instructions(content)?;
    build_promptfile(instructions)
}

// ───────────────────────── variable overrides ─────────────────────────

/// Parsing `NAME=VALUE`: split at the first `=`; the name must be non-empty.
pub open spec fn spec_var_override(s: Seq<char>) -> Result<(Seq<char>, Seq<char>), Seq<char>> {
    match split_once(s, '=') {
        Some((a, b)) => if a.len() > 0 {
            Ok((a, b))
        } else {
            Err(var_override_error(s))
        },
        None => Err(var_override_error(s)),
    }
}

/// The error message for a malformed variable override.
pub open spec fn var_override_error(s: Seq<char>) -> Seq<char> {
    "Invalid variable override '"@ + s + "'. Expected NAME=VALUE format"@
}

/// Parses a variable override string of the form `NAME=VALUE`; the value may contain `=`
/// and may be empty, the name may not be empty.
pub fn parse_var_override(s: &str) -> (r: Result<(String, String), PromptHubError>)
    ensures
        match spec_var_override(s@) {
            Ok((a, b)) => r matches Ok((x, y)) && x@ == a && y@ == b,
            Err(m) => r matches Err(PromptHubError::ParseError(x)) && x@ == m,
        },
{
    let v = chars_of(s);
    match split_once_vec(&v, '=') {
        Some((a, b)) => {
            if a.len() > 0 {
                Ok((string_of(&a), string_of(&b)))
            } else {
                Err(parse_error(concat3("Invalid variable override '", s, "'. Expected NAME=VALUE format")))
            }
        },
        None => Err(parse_error(concat3("Invalid variable override '", s, "'. Expected NAME=VALUE format"))),
    }
}

} // verus!
