use vstd::prelude::*;

verus! {

broadcast use vstd::std_specs::vec::axiom_vec_index_decreases;

/// The deepest nesting of nodes the parser accepts; deeper input fails
/// with `ErrKind::DepthExceeded` instead of recursing without bound.
pub const MAX_DEPTH: usize = 64;

/// A parsed value: a leaf string or an ordered multi-map of key/value entries.
/// Duplicate keys at one level are legitimate and are preserved in order.
#[derive(Debug)]
pub enum Value {
    Leaf(String),
    Node(Vec<(String, Value)>),
}

/// Mathematical model of a value tree.
#[verifier::ext_equal]
pub enum Tree {
    Leaf { s: Seq<char> },
    Node { entries: Seq<(Seq<char>, Tree)> },
}

pub type Entries = Seq<(Seq<char>, Tree)>;

impl Value {
    pub open spec fn view(self) -> Tree
        decreases self,
    {
        match self {
            Value::Leaf(s) => Tree::Leaf { s: s@ },
            Value::Node(es) => Tree::Node {
                entries: Seq::new(
                    es.len() as nat,
                    |i: int|
                        if 0 <= i < es.len() {
                            (es[i].0@, es[i].1.view())
                        } else {
                            (Seq::empty(), Tree::Leaf { s: Seq::empty() })
                        },
                ),
            },
        }
    }
}

/// Model of a vector of entries as a sequence of modelled entries.
pub open spec fn ents_view(es: Seq<(String, Value)>) -> Entries {
    Seq::new(es.len(), |i: int| (es[i].0@, es[i].1@))
}

pub broadcast proof fn lemma_node_view(es: Vec<(String, Value)>)
    ensures
        (#[trigger] Value::Node(es)@) == (Tree::Node { entries: ents_view(es@) }),
{
    let a = Value::Node(es)@;
    assert(a matches Tree::Node { .. });
    let ae = a->Node_entries;
    let b = ents_view(es@);
    assert forall|i: int| 0 <= i < ae.len() implies ae[i] == b[i] by {
    }
    assert(ae =~= b);
    assert(a =~= (Tree::Node { entries: b }));
}

/// What went wrong while parsing.
#[derive(Clone, Copy, PartialEq, Eq, Structural, Debug)]
pub enum ErrKind {
    UnmatchedClose,
    UnterminatedString,
    DepthExceeded,
    MissingValue,
    KeyExpected,
    UnclosedNode,
}

/// A parse failure, carrying the 1-based line of the offending input.
#[derive(Debug)]
pub struct SyntaxError {
    pub line: usize,
    pub kind: ErrKind,
}


/// What a failure kind means, in words.
pub open spec fn reason_of(k: ErrKind) -> Seq<char> {
    match k {
        ErrKind::UnmatchedClose => "unmatched closing brace"@,
        ErrKind::UnterminatedString => "unterminated quoted string"@,
        ErrKind::DepthExceeded => "maximum nesting depth exceeded"@,
        ErrKind::MissingValue => "key without a value"@,
        ErrKind::KeyExpected => "brace where a key was expected"@,
        ErrKind::UnclosedNode => "unclosed node at end of input"@,
    }
}

impl SyntaxError {
    /// A short human-readable reason for the failure.
    pub fn reason(&self) -> (r: String)
        ensures
            r@ == reason_of(self.kind),
    {
        match self.kind {
            ErrKind::UnmatchedClose => String::from_str("unmatched closing brace"),
            ErrKind::UnterminatedString => String::from_str("unterminated quoted string"),
            ErrKind::DepthExceeded => String::from_str("maximum nesting depth exceeded"),
            ErrKind::MissingValue => String::from_str("key without a value"),
            ErrKind::KeyExpected => String::from_str("brace where a key was expected"),
            ErrKind::UnclosedNode => String::from_str("unclosed node at end of input"),
        }
    }
}

pub open spec fn is_ws(c: char) -> bool {
    c == ' ' || c == '\t' || c == '\n' || c == '\r'
}

/// Index of the next character that is neither whitespace nor part of
/// a `//` line comment, or the input length if none remains.
pub open spec fn skip_trivia(s: Seq<char>, i: int, in_comment: bool) -> int
    decreases s.len() - i,
{
    if i < 0 || i >= s.len() {
        s.len() as int
    } else if in_comment {
        if s[i] == '\n' {
            skip_trivia(s, i + 1, false)
        } else {
            skip_trivia(s, i + 1, true)
        }
    } else if is_ws(s[i]) {
        skip_trivia(s, i + 1, false)
    } else if s[i] == '/' && i + 1 < s.len() && s[i + 1] == '/' {
        skip_trivia(s, i + 2, true)
    } else {
        i
    }
}

/// The character an escape sequence `\c` stands for.
pub open spec fn unescape(c: char) -> char {
    if c == 'n' {
        '\n'
    } else if c == 't' {
        '\t'
    } else {
        c
    }
}

/// Contents of a quoted token starting just after its opening quote,
/// with the index just past the closing quote; `None` if unterminated.
pub open spec fn scan_quoted(s: Seq<char>, i: int) -> Option<(Seq<char>, int)>
    decreases s.len() - i,
{
    if i < 0 || i >= s.len() {
        None
    } else if s[i] == '"' {
        Some((Seq::empty(), i + 1))
    } else if s[i] == '\\' {
        if i + 1 >= s.len() {
            None
        } else {
            match scan_quoted(s, i + 2) {
                Some((t, j)) => Some((seq![unescape(s[i + 1])] + t, j)),
                None => None,
            }
        }
    } else {
        match scan_quoted(s, i + 1) {
            Some((t, j)) => Some((seq![s[i]] + t, j)),
            None => None,
        }
    }
}

pub open spec fn is_plain(c: char) -> bool {
    !is_ws(c) && c != '{' && c != '}' && c != '"'
}

/// An unquoted token: the run of plain characters from `i`, and the
/// index just past it.
pub open spec fn scan_unquoted(s: Seq<char>, i: int) -> (Seq<char>, int)
    decreases s.len() - i,
{
    if i < 0 || i >= s.len() || !is_plain(s[i]) {
        (Seq::empty(), i)
    } else {
        let (t, j) = scan_unquoted(s, i + 1);
        (seq![s[i]] + t, j)
    }
}

/// State of the parsing machine: position, the entry lists of the
/// enclosing open nodes (each with its key), and the current node's
/// entries so far.
#[verifier::ext_equal]
pub struct PState {
    pub i: int,
    pub stack: Seq<(Seq<char>, Entries)>,
    pub cur: Entries,
}

#[verifier::ext_equal]
pub enum StepRes {
    Next(PState),
    Done(Entries),
    Fail(ErrKind, int),
}

#[verifier::ext_equal]
pub enum ParseOut {
    Parsed(Entries),
    Failed(ErrKind, int),
}

/// One step of the parsing machine: consume the next token or brace.
pub open spec fn step(s: Seq<char>, st: PState) -> StepRes {
    let j = skip_trivia(s, st.i, false);
    if j >= s.len() {
        if st.stack.len() == 0 {
            StepRes::Done(st.cur)
        } else {
            StepRes::Fail(ErrKind::UnclosedNode, j)
        }
    } else if s[j] == '}' {
        if st.stack.len() > 0 {
            let frame = st.stack.last();
            StepRes::Next(
                PState {
                    i: j + 1,
                    stack: st.stack.drop_last(),
                    cur: frame.1.push((frame.0, Tree::Node { entries: st.cur })),
                },
            )
        } else {
            StepRes::Fail(ErrKind::UnmatchedClose, j)
        }
    } else if s[j] == '{' {
        StepRes::Fail(ErrKind::KeyExpected, j)
    } else {
        let key_res = if s[j] == '"' {
            scan_quoted(s, j + 1)
        } else {
            Some(scan_unquoted(s, j))
        };
        match key_res {
            None => StepRes::Fail(ErrKind::UnterminatedString, j),
            Some((key, j2)) => {
                let j3 = skip_trivia(s, j2, false);
                if j3 >= s.len() {
                    StepRes::Fail(ErrKind::MissingValue, j3)
                } else if s[j3] == '}' {
                    StepRes::Fail(ErrKind::MissingValue, j3)
                } else if s[j3] == '{' {
                    if st.stack.len() >= MAX_DEPTH {
                        StepRes::Fail(ErrKind::DepthExceeded, j3)
                    } else {
                        StepRes::Next(
                            PState {
                                i: j3 + 1,
                                stack: st.stack.push((key, st.cur)),
                                cur: Seq::empty(),
                            },
                        )
                    }
                } else {
                    let val_res = if s[j3] == '"' {
                        scan_quoted(s, j3 + 1)
                    } else {
                        Some(scan_unquoted(s, j3))
                    };
                    match val_res {
                        None => StepRes::Fail(ErrKind::UnterminatedString, j3),
                        Some((v, j4)) => StepRes::Next(
                            PState {
                                i: j4,
                                stack: st.stack,
                                cur: st.cur.push((key, Tree::Leaf { s: v })),
                            },
                        ),
                    }
                }
            },
        }
    }
}

/// Run the machine to completion. A step always advances the position
/// (the executable parser proves as much); the guard exists only to
/// give this function a termination measure.
pub open spec fn iterate(s: Seq<char>, st: PState) -> ParseOut
    decreases s.len() - st.i,
{
    match step(s, st) {
        StepRes::Done(es) => ParseOut::Parsed(es),
        StepRes::Fail(k, p) => ParseOut::Failed(k, p),
        StepRes::Next(n) => if st.i < n.i && n.i <= s.len() {
            iterate(s, n)
        } else {
            ParseOut::Failed(ErrKind::UnclosedNode, st.i)
        },
    }
}

/// What parsing a whole document yields: the entries of the implicit
/// root node, or the first failure.
pub open spec fn spec_parse(s: Seq<char>) -> ParseOut {
    iterate(s, PState { i: 0, stack: Seq::empty(), cur: Seq::empty() })
}

/// 1-based line number of position `p`, counting newline characters
/// before it; saturates at `usize::MAX`.
pub open spec fn line_of(s: Seq<char>, p: int) -> int
    decreases p,
{
    if p <= 0 {
        1
    } else {
        let prev = line_of(s, p - 1);
        if 0 < p <= s.len() && s[p - 1] == '\n' && prev < usize::MAX {
            prev + 1
        } else {
            prev
        }
    }
}

// ---------------------------------------------------------------------------
// Canonical writer, at the model level.
// ---------------------------------------------------------------------------

pub open spec fn esc_char(c: char) -> Seq<char> {
    if c == '"' {
        seq!['\\', '"']
    } else if c == '\\' {
        seq!['\\', '\\']
    } else {
        seq![c]
    }
}

pub open spec fn esc(s: Seq<char>) -> Seq<char>
    decreases s.len(),
{
    if s.len() == 0 {
        Seq::empty()
    } else {
        esc_char(s[0]) + esc(s.drop_first())
    }
}

pub open spec fn quoted(s: Seq<char>) -> Seq<char> {
    seq!['"'] + esc(s) + seq!['"']
}

/// The canonical text of a node's entries: each leaf as `"k" "v"`,
/// each nested node as `"k"` `{` ... `}`, one item per line.
pub open spec fn ser_entries(es: Entries) -> Seq<char>
    decreases es,
{
    if es.len() == 0 {
        Seq::empty()
    } else {
        let piece = match es[0].1 {
            Tree::Leaf { s } => quoted(es[0].0) + seq![' '] + quoted(s) + seq!['\n'],
            Tree::Node { entries } => quoted(es[0].0) + seq!['\n', '{', '\n'] + ser_entries(entries)
                + seq!['}', '\n'],
        };
        piece + ser_entries(es.drop_first())
    }
}

pub open spec fn ser_doc(t: Tree) -> Seq<char> {
    match t {
        Tree::Node { entries } => ser_entries(entries),
        Tree::Leaf { s } => quoted(s),
    }
}

// ---------------------------------------------------------------------------
// Executable code.
// ---------------------------------------------------------------------------

/// Relies on String::push: appends exactly the one character.
#[verifier::external_body]
pub(crate) fn push_char(s: &mut String, c: char)
    ensures
        final(s)@ == old(s)@.push(c),
{
    s.push(c);
}

/// The characters of a string slice, as a vector.
pub fn chars_of(s: &str) -> (r: Vec<char>)
    ensures
        r@ == s@,
{
    let n = s.unicode_len();
    let mut r: Vec<char> = Vec::new();
    let mut i: usize = 0;
    while i < n
        invariant
            i <= n,
            n == s@.len(),
            r@ == s@.subrange(0, i as int),
        decreases n - i,
    {
        let c = s.get_char(i);
        r.push(c);
        proof {
            assert(s@.subrange(0, i as int).push(s@[i as int]) =~= s@.subrange(0, i + 1 as int));
        }
        i += 1;
    }
    proof {
        assert(s@.subrange(0, n as int) =~= s@);
    }
    r
}

fn skip_trivia_exec(s: &Vec<char>, start: usize) -> (j: usize)
    requires
        start <= s@.len(),
    ensures
        start <= j <= s@.len(),
        j as int == skip_trivia(s@, start as int, false),
        j < s@.len() ==> !is_ws(s@[j as int]),
{
    let mut i = start;
    let mut com = false;
    loop
        invariant
            start <= i <= s@.len(),
            skip_trivia(s@, start as int, false) == skip_trivia(s@, i as int, com),
        decreases s@.len() - i,
    {
        if i >= s.len() {
            return i;
        }
        let c = s[i];
        if com {
            if c == '\n' {
                com = false;
            }
            i += 1;
        } else if c == ' ' || c == '\t' || c == '\n' || c == '\r' {
            i += 1;
        } else if c == '/' && i + 1 < s.len() && s[i + 1] == '/' {
            com = true;
            i += 2;
        } else {
            return i;
        }
    }
}

/// `scan_quoted` with a prepended prefix, for loop invariants.
pub open spec fn prepend_tok(a: Seq<char>, r: Option<(Seq<char>, int)>) -> Option<
    (Seq<char>, int),
> {
    match r {
        Some((t, j)) => Some((a + t, j)),
        None => None,
    }
}

fn scan_quoted_exec(s: &Vec<char>, start: usize) -> (r: Option<(String, usize)>)
    requires
        start <= s@.len(),
    ensures
        match r {
            Some(tj) => scan_quoted(s@, start as int) == Some((tj.0@, tj.1 as int)) && start
                < tj.1 <= s@.len(),
            None => scan_quoted(s@, start as int) is None,
        },
{
    let mut i = start;
    let mut acc = String::new();
    loop
        invariant
            start <= i <= s@.len(),
            scan_quoted(s@, start as int) == prepend_tok(acc@, scan_quoted(s@, i as int)),
        decreases s@.len() - i,
    {
        if i >= s.len() {
            return None;
        }
        let c = s[i];
        if c == '"' {
            proof {
                assert(acc@ + Seq::<char>::empty() =~= acc@);
            }
            return Some((acc, i + 1));
        } else if c == '\\' {
            if i + 1 >= s.len() {
                return None;
            }
            let e = s[i + 1];
            let u = if e == 'n' {
                '\n'
            } else if e == 't' {
                '\t'
            } else {
                e
            };
            proof {
                assert(u == unescape(s@[i + 1 as int]));
                if let Some((t, j)) = scan_quoted(s@, i + 2 as int) {
                    assert(acc@ + (seq![u] + t) =~= acc@.push(u) + t);
                }
            }
            push_char(&mut acc, u);
            i += 2;
        } else {
            proof {
                if let Some((t, j)) = scan_quoted(s@, i + 1 as int) {
                    assert(acc@ + (seq![c] + t) =~= acc@.push(c) + t);
                }
            }
            push_char(&mut acc, c);
            i += 1;
        }
    }
}

fn scan_unquoted_exec(s: &Vec<char>, start: usize) -> (r: (String, usize))
    requires
        start <= s@.len(),
    ensures
        scan_unquoted(s@, start as int) == (r.0@, r.1 as int),
        start <= r.1 <= s@.len(),
        start < s@.len() && is_plain(s@[start as int]) ==> start < r.1,
{
    let mut i = start;
    let mut acc = String::new();
    loop
        invariant
            start <= i <= s@.len(),
            scan_unquoted(s@, start as int) == {
                let (t, j) = scan_unquoted(s@, i as int);
                (acc@ + t, j)
            },
        decreases s@.len() - i,
    {
        if i >= s.len() {
            proof {
                assert(acc@ + Seq::<char>::empty() =~= acc@);
            }
            return (acc, i);
        }
        let c = s[i];
        if c == ' ' || c == '\t' || c == '\n' || c == '\r' || c == '{' || c == '}' || c == '"' {
            proof {
                assert(acc@ + Seq::<char>::empty() =~= acc@);
            }
            return (acc, i);
        }
        proof {
            let (t, j) = scan_unquoted(s@, i + 1 as int);
            assert(acc@ + (seq![c] + t) =~= acc@.push(c) + t);
        }
        push_char(&mut acc, c);
        i += 1;
    }
}

fn line_of_exec(s: &Vec<char>, p: usize) -> (r: usize)
    requires
        p <= s@.len(),
    ensures
        r as int == line_of(s@, p as int),
{
    let mut r: usize = 1;
    let mut k: usize = 0;
    while k < p
        invariant
            k <= p <= s@.len(),
            1 <= r,
            r as int == line_of(s@, k as int),
        decreases p - k,
    {
        if s[k] == '\n' && r < usize::MAX {
            r += 1;
        }
        k += 1;
    }
    r
}

pub open spec fn stack_view(st: Seq<(String, Vec<(String, Value)>)>) -> Seq<(Seq<char>, Entries)> {
    Seq::new(st.len(), |i: int| (st[i].0@, ents_view(st[i].1@)))
}

/// Parse a document into its value tree (the implicit root node).
///
/// The result is exactly what the parsing machine `spec_parse` yields:
/// on success the root node's entries, in input order with duplicate
/// keys preserved; on failure the first error, with its line.
pub fn parse(text: &str) -> (r: Result<Value, SyntaxError>)
    ensures
        match r {
            Ok(v) => spec_parse(text@) matches ParseOut::Parsed(es) && v@ == (Tree::Node {
                entries: es,
            }),
            Err(e) => spec_parse(text@) matches ParseOut::Failed(k, p) && e.kind == k && e.line
                as int == line_of(text@, p),
        },
{
    broadcast use lemma_node_view;

    let s = chars_of(text);
    let mut i: usize = 0;
    let mut cur: Vec<(String, Value)> = Vec::new();
    let mut stack: Vec<(String, Vec<(String, Value)>)> = Vec::new();
    proof {
        assert(ents_view(cur@) =~= Seq::<(Seq<char>, Tree)>::empty());
        assert(stack_view(stack@) =~= Seq::<(Seq<char>, Entries)>::empty());
    }
    loop
        invariant
            i <= s@.len(),
            s@ == text@,
            iterate(s@, PState { i: i as int, stack: stack_view(stack@), cur: ents_view(cur@) })
                == spec_parse(text@),
        decreases s@.len() - i,
    {
        let ghost st = PState { i: i as int, stack: stack_view(stack@), cur: ents_view(cur@) };
        let j = skip_trivia_exec(&s, i);
        if j >= s.len() {
            if stack.len() == 0 {
                proof {
                    assert(step(s@, st) == StepRes::Done(st.cur));
                    assert(iterate(s@, st) == ParseOut::Parsed(st.cur));
                    lemma_node_view(cur);
                }
                return Ok(Value::Node(cur));
            } else {
                let line = line_of_exec(&s, j);
                proof {
                    assert(step(s@, st) == StepRes::Fail(ErrKind::UnclosedNode, j as int));
                }
                return Err(SyntaxError { line, kind: ErrKind::UnclosedNode });
            }
        }
        let c = s[j];
        if c == '}' {
            if stack.len() > 0 {
                let frame = stack.pop().unwrap();
                let ghost gkey = frame.0@;
                let ghost gsub = frame.1@;
                proof {
                    lemma_node_view(cur);
                }
                let node = Value::Node(cur);
                let mut parent = frame.1;
                parent.push((frame.0, node));
                proof {
                    let n = PState {
                        i: j + 1 as int,
                        stack: st.stack.drop_last(),
                        cur: st.stack.last().1.push(
                            (st.stack.last().0, Tree::Node { entries: st.cur }),
                        ),
                    };
                    assert(step(s@, st) == StepRes::Next(n));
                    assert(st.stack.last() == (gkey, ents_view(gsub)));
                    assert(stack_view(stack@) =~= n.stack);
                    assert(parent@ == gsub.push((frame.0, node)));
                    assert(ents_view(parent@) =~= n.cur);
                }
                cur = parent;
                i = j + 1;
            } else {
                let line = line_of_exec(&s, j);
                proof {
                    assert(step(s@, st) == StepRes::Fail(ErrKind::UnmatchedClose, j as int));
                }
                return Err(SyntaxError { line, kind: ErrKind::UnmatchedClose });
            }
        } else if c == '{' {
            let line = line_of_exec(&s, j);
            proof {
                assert(step(s@, st) == StepRes::Fail(ErrKind::KeyExpected, j as int));
            }
            return Err(SyntaxError { line, kind: ErrKind::KeyExpected });
        } else {
            let key;
            let j2;
            if c == '"' {
                match scan_quoted_exec(&s, j + 1) {
                    None => {
                        let line = line_of_exec(&s, j);
                        proof {
                            assert(step(s@, st) == StepRes::Fail(
                                ErrKind::UnterminatedString,
                                j as int,
                            ));
                        }
                        return Err(SyntaxError { line, kind: ErrKind::UnterminatedString });
                    },
                    Some(tj) => {
                        key = tj.0;
                        j2 = tj.1;
                    },
                }
            } else {
                let tj = scan_unquoted_exec(&s, j);
                key = tj.0;
                j2 = tj.1;
            }
            let j3 = skip_trivia_exec(&s, j2);
            if j3 >= s.len() {
                let line = line_of_exec(&s, j3);
                proof {
                    assert(step(s@, st) == StepRes::Fail(ErrKind::MissingValue, j3 as int));
                }
                return Err(SyntaxError { line, kind: ErrKind::MissingValue });
            }
            let c3 = s[j3];
            if c3 == '}' {
                let line = line_of_exec(&s, j3);
                proof {
                    assert(step(s@, st) == StepRes::Fail(ErrKind::MissingValue, j3 as int));
                }
                return Err(SyntaxError { line, kind: ErrKind::MissingValue });
            } else if c3 == '{' {
                if stack.len() >= MAX_DEPTH {
                    let line = line_of_exec(&s, j3);
                    proof {
                        assert(step(s@, st) == StepRes::Fail(ErrKind::DepthExceeded, j3 as int));
                    }
                    return Err(SyntaxError { line, kind: ErrKind::DepthExceeded });
                }
                stack.push((key, cur));
                cur = Vec::new();
                proof {
                    let n = PState {
                        i: j3 + 1 as int,
                        stack: st.stack.push((key@, st.cur)),
                        cur: Seq::empty(),
                    };
                    assert(step(s@, st) == StepRes::Next(n));
                    assert(stack_view(stack@) =~= n.stack);
                    assert(ents_view(cur@) =~= n.cur);
                }
                i = j3 + 1;
            } else {
                let v;
                let j4;
                if c3 == '"' {
                    match scan_quoted_exec(&s, j3 + 1) {
                        None => {
                            let line = line_of_exec(&s, j3);
                            proof {
                                assert(step(s@, st) == StepRes::Fail(
                                    ErrKind::UnterminatedString,
                                    j3 as int,
                                ));
                            }
                            return Err(SyntaxError { line, kind: ErrKind::UnterminatedString });
                        },
                        Some(tj) => {
                            v = tj.0;
                            j4 = tj.1;
                        },
                    }
                } else {
                    let tj = scan_unquoted_exec(&s, j3);
                    v = tj.0;
                    j4 = tj.1;
                }
                proof {
                    let n = PState {
                        i: j4 as int,
                        stack: st.stack,
                        cur: st.cur.push((key@, Tree::Leaf { s: v@ })),
                    };
                    assert(step(s@, st) == StepRes::Next(n));
                }
                cur.push((key, Value::Leaf(v)));
                proof {
                    assert(ents_view(cur@) =~= st.cur.push((key@, Tree::Leaf { s: v@ })));
                }
                i = j4;
            }
        }
    }
}

fn write_quoted(s: &str, out: &mut String)
    ensures
        final(out)@ == old(out)@ + quoted(s@),
{
    push_char(out, '"');
    let n = s.unicode_len();
    proof {
        assert(out@ =~= old(out)@ + seq!['"']);
        assert(s@.subrange(0, n as int) =~= s@);
    }
    let mut i: usize = 0;
    while i < n
        invariant
            i <= n,
            n == s@.len(),
            out@ + esc(s@.subrange(i as int, n as int)) == old(out)@ + seq!['"'] + esc(s@),
        decreases n - i,
    {
        proof {
            let rest = s@.subrange(i as int, n as int);
            assert(rest.drop_first() =~= s@.subrange(i + 1 as int, n as int));
            assert(rest[0] == s@[i as int]);
        }
        let ghost out0 = out@;
        let c = s.get_char(i);
        if c == '"' {
            push_char(out, '\\');
            push_char(out, '"');
        } else if c == '\\' {
            push_char(out, '\\');
            push_char(out, '\\');
        } else {
            push_char(out, c);
        }
        proof {
            assert(out@ =~= out0 + esc_char(s@[i as int]));
            let rest = s@.subrange(i as int, n as int);
            assert(esc(rest) == esc_char(s@[i as int]) + esc(s@.subrange(i + 1 as int, n as int)));
            assert(out@ + esc(s@.subrange(i + 1 as int, n as int)) =~= out0 + esc(rest));
        }
        i += 1;
    }
    proof {
        assert(s@.subrange(0 as int, n as int) =~= s@);
        assert(esc(s@.subrange(n as int, n as int)) =~= Seq::<char>::empty());
    }
    push_char(out, '"');
    proof {
        assert(out@ =~= old(out)@ + quoted(s@));
    }
}

/// Write a node's entries in the canonical form `ser_entries`.
fn write_entries(es: &Vec<(String, Value)>, out: &mut String)
    ensures
        final(out)@ == old(out)@ + ser_entries(ents_view(es@)),
    decreases es,
{
    let mut idx: usize = 0;
    proof {
        assert(ents_view(es@).skip(0) =~= ents_view(es@));
    }
    while idx < es.len()
        invariant
            idx <= es@.len(),
            out@ + ser_entries(ents_view(es@).skip(idx as int)) == old(out)@ + ser_entries(
                ents_view(es@),
            ),
        decreases es@.len() - idx,
    {
        let ghost out0 = out@;
        let ghost rest = ents_view(es@).skip(idx as int);
        proof {
            assert(rest.drop_first() =~= ents_view(es@).skip(idx + 1 as int));
            assert(rest[0] == (es@[idx as int].0@, es@[idx as int].1@));
        }
        let entry = &es[idx];
        write_quoted(entry.0.as_str(), out);
        match &entry.1 {
            Value::Leaf(t) => {
                push_char(out, ' ');
                write_quoted(t.as_str(), out);
                push_char(out, '\n');
                proof {
                    assert(es@[idx as int].1@ == Tree::Leaf { s: t@ });
                    let piece = quoted(es@[idx as int].0@) + seq![' '] + quoted(t@) + seq!['\n'];
                    assert(out@ =~= out0 + piece);
                    assert(ser_entries(rest) == piece + ser_entries(rest.drop_first()));
                }
            },
            Value::Node(sub) => {
                push_char(out, '\n');
                push_char(out, '{');
                push_char(out, '\n');
                write_entries(sub, out);
                push_char(out, '}');
                push_char(out, '\n');
                proof {
                    lemma_node_view(*sub);
                    assert(es@[idx as int].1 == Value::Node(*sub));
                    let piece = quoted(es@[idx as int].0@) + seq!['\n', '{', '\n'] + ser_entries(
                        ents_view(sub@),
                    ) + seq!['}', '\n'];
                    assert(out@ =~= out0 + piece);
                    assert(ser_entries(rest) == piece + ser_entries(rest.drop_first()));
                }
            },
        }
        proof {
            assert(out@ + ser_entries(ents_view(es@).skip(idx + 1 as int)) =~= old(out)@
                + ser_entries(ents_view(es@)));
        }
        idx += 1;
    }
    proof {
        assert(ents_view(es@).skip(es@.len() as int) =~= Seq::<(Seq<char>, Tree)>::empty());
    }
}

/// The canonical writer: the text `ser_doc` of the value tree.
pub fn serialize(v: &Value) -> (r: String)
    ensures
        r@ == ser_doc(v@),
{
    broadcast use lemma_node_view;

    let mut out = String::new();
    match v {
        Value::Leaf(s) => {
            write_quoted(s.as_str(), &mut out);
        },
        Value::Node(es) => {
            write_entries(es, &mut out);
        },
    }
    out
}

// ---------------------------------------------------------------------------
// Queries over value trees, shared by the resolvers.
// ---------------------------------------------------------------------------

/// Depth-first: the first leaf entry with the given key.
pub open spec fn first_leaf(es: Entries, k: Seq<char>) -> Option<Seq<char>>
    decreases es,
{
    if es.len() == 0 {
        None
    } else {
        match es[0].1 {
            Tree::Leaf { s } => if es[0].0 == k {
                Some(s)
            } else {
                first_leaf(es.drop_first(), k)
            },
            Tree::Node { entries } => match first_leaf(entries, k) {
                Some(s) => Some(s),
                None => first_leaf(es.drop_first(), k),
            },
        }
    }
}

/// Depth-first: the entries of the first node entry with the given key.
pub open spec fn first_node(es: Entries, k: Seq<char>) -> Option<Entries>
    decreases es,
{
    if es.len() == 0 {
        None
    } else {
        match es[0].1 {
            Tree::Node { entries } => if es[0].0 == k {
                Some(entries)
            } else {
                match first_node(entries, k) {
                    Some(x) => Some(x),
                    None => first_node(es.drop_first(), k),
                }
            },
            Tree::Leaf { .. } => first_node(es.drop_first(), k),
        }
    }
}

/// Depth-first: every leaf value under a key, in document order.
pub open spec fn leaves_keyed(es: Entries, k: Seq<char>) -> Seq<Seq<char>>
    decreases es,
{
    if es.len() == 0 {
        Seq::empty()
    } else {
        let head = match es[0].1 {
            Tree::Leaf { s } => if es[0].0 == k {
                seq![s]
            } else {
                Seq::empty()
            },
            Tree::Node { entries } => leaves_keyed(entries, k),
        };
        head + leaves_keyed(es.drop_first(), k)
    }
}

pub fn find_first_leaf(es: &Vec<(String, Value)>, k: &str) -> (r: Option<String>)
    ensures
        match r {
            Some(s) => first_leaf(ents_view(es@), k@) == Some(s@),
            None => first_leaf(ents_view(es@), k@) is None,
        },
    decreases es,
{
    let mut idx: usize = 0;
    proof {
        assert(ents_view(es@).skip(0) =~= ents_view(es@));
    }
    loop
        invariant
            idx <= es@.len(),
            first_leaf(ents_view(es@), k@) == first_leaf(
                ents_view(es@).skip(idx as int),
                k@,
            ),
        decreases es@.len() - idx,
    {
        if idx >= es.len() {
            return None;
        }
        proof {
            let rest = ents_view(es@).skip(idx as int);
            assert(rest.drop_first() =~= ents_view(es@).skip(idx + 1 as int));
            assert(rest[0] == (es@[idx as int].0@, es@[idx as int].1@));
        }
        let entry = &es[idx];
        match &entry.1 {
            Value::Leaf(s) => {
                if crate::text::str_equal(entry.0.as_str(), k) {
                    return Some(s.clone());
                }
            },
            Value::Node(sub) => {
                proof {
                    lemma_node_view(*sub);
                }
                match find_first_leaf(sub, k) {
                    Some(s) => {
                        return Some(s);
                    },
                    None => {
                    },
                }
            },
        }
        idx += 1;
    }
}

pub fn find_first_node<'a>(es: &'a Vec<(String, Value)>, k: &str) -> (r: Option<
    &'a Vec<(String, Value)>,
>)
    ensures
        match r {
            Some(v) => first_node(ents_view(es@), k@) == Some(ents_view(v@)),
            None => first_node(ents_view(es@), k@) is None,
        },
    decreases es,
{
    let mut idx: usize = 0;
    proof {
        assert(ents_view(es@).skip(0) =~= ents_view(es@));
    }
    loop
        invariant
            idx <= es@.len(),
            first_node(ents_view(es@), k@) == first_node(
                ents_view(es@).skip(idx as int),
                k@,
            ),
        decreases es@.len() - idx,
    {
        if idx >= es.len() {
            return None;
        }
        proof {
            let rest = ents_view(es@).skip(idx as int);
            assert(rest.drop_first() =~= ents_view(es@).skip(idx + 1 as int));
            assert(rest[0] == (es@[idx as int].0@, es@[idx as int].1@));
        }
        let entry = &es[idx];
        match &entry.1 {
            Value::Node(sub) => {
                proof {
                    lemma_node_view(*sub);
                }
                if crate::text::str_equal(entry.0.as_str(), k) {
                    return Some(sub);
                }
                match find_first_node(sub, k) {
                    Some(v) => {
                        return Some(v);
                    },
                    None => {
                    },
                }
            },
            Value::Leaf(_) => {
            },
        }
        idx += 1;
    }
}

/// Append every leaf value under `k`, in document order, to `out`.
pub fn collect_leaves_keyed(es: &Vec<(String, Value)>, k: &str, out: &mut Vec<String>)
    ensures
        strs_view(final(out)@) == strs_view(old(out)@) + leaves_keyed(ents_view(es@), k@),
    decreases es,
{
    let mut idx: usize = 0;
    proof {
        assert(ents_view(es@).skip(0) =~= ents_view(es@));
    }
    while idx < es.len()
        invariant
            idx <= es@.len(),
            strs_view(out@) + leaves_keyed(ents_view(es@).skip(idx as int), k@) == strs_view(
                old(out)@,
            ) + leaves_keyed(ents_view(es@), k@),
        decreases es@.len() - idx,
    {
        let ghost sv0 = strs_view(out@);
        let ghost rest = ents_view(es@).skip(idx as int);
        proof {
            assert(rest.drop_first() =~= ents_view(es@).skip(idx + 1 as int));
            assert(rest[0] == (es@[idx as int].0@, es@[idx as int].1@));
        }
        let entry = &es[idx];
        match &entry.1 {
            Value::Leaf(s) => {
                if crate::text::str_equal(entry.0.as_str(), k) {
                    out.push(s.clone());
                    proof {
                        assert(strs_view(out@) =~= sv0 + seq![s@]);
                    }
                } else {
                    proof {
                        assert(strs_view(out@) =~= sv0 + Seq::<Seq<char>>::empty());
                    }
                }
            },
            Value::Node(sub) => {
                proof {
                    lemma_node_view(*sub);
                }
                collect_leaves_keyed(sub, k, out);
            },
        }
        proof {
            assert(strs_view(out@) + leaves_keyed(ents_view(es@).skip(idx + 1 as int), k@)
                =~= strs_view(old(out)@) + leaves_keyed(ents_view(es@), k@));
        }
        idx += 1;
    }
    proof {
        assert(leaves_keyed(ents_view(es@).skip(es@.len() as int), k@) =~= Seq::<Seq<char>>::empty());
        assert(strs_view(out@) + Seq::<Seq<char>>::empty() =~= strs_view(out@));
    }
}

/// The views of a vector of strings.
pub open spec fn strs_view(v: Seq<String>) -> Seq<Seq<char>> {
    Seq::new(v.len(), |i: int| v[i]@)
}

// ---------------------------------------------------------------------------
// The round-trip law: parsing the canonical text of a tree yields the
// tree back.
// ---------------------------------------------------------------------------

/// Nesting depth of a node's entries: leaves count 0, a nested node
/// one more than its contents.
pub open spec fn depth_entries(es: Entries) -> nat
    decreases es,
{
    if es.len() == 0 {
        0
    } else {
        let d0: nat = match es[0].1 {
            Tree::Leaf { .. } => 0,
            Tree::Node { entries } => 1 + depth_entries(entries),
        };
        let dr = depth_entries(es.drop_first());
        if d0 > dr {
            d0
        } else {
            dr
        }
    }
}

proof fn lemma_skip_props(s: Seq<char>, i: int, com: bool)
    requires
        0 <= i <= s.len(),
    ensures
        ({
            let r = skip_trivia(s, i, com);
            i <= r <= s.len() && (r < s.len() ==> !is_ws(s[r]) && !(s[r] == '/' && r + 1 < s.len()
                && s[r + 1] == '/'))
        }),
    decreases s.len() - i,
{
    if i < s.len() {
        if com {
            if s[i] == '\n' {
                lemma_skip_props(s, i + 1, false);
            } else {
                lemma_skip_props(s, i + 1, true);
            }
        } else if is_ws(s[i]) {
            lemma_skip_props(s, i + 1, false);
        } else if s[i] == '/' && i + 1 < s.len() && s[i + 1] == '/' {
            lemma_skip_props(s, i + 2, true);
        }
    }
}

proof fn lemma_scan_quoted_bounds(s: Seq<char>, i: int)
    requires
        0 <= i,
    ensures
        scan_quoted(s, i) matches Some(tj) ==> i < tj.1 <= s.len(),
    decreases s.len() - i,
{
    if 0 <= i < s.len() {
        if s[i] == '"' {
        } else if s[i] == '\\' {
            if i + 1 < s.len() {
                lemma_scan_quoted_bounds(s, i + 2);
            }
        } else {
            lemma_scan_quoted_bounds(s, i + 1);
        }
    }
}

proof fn lemma_scan_unquoted_bounds(s: Seq<char>, i: int)
    requires
        0 <= i <= s.len(),
    ensures
        i <= scan_unquoted(s, i).1 <= s.len(),
        i < s.len() && is_plain(s[i]) ==> i < scan_unquoted(s, i).1,
    decreases s.len() - i,
{
    if i < s.len() && is_plain(s[i]) {
        lemma_scan_unquoted_bounds(s, i + 1);
    }
}

proof fn lemma_step_advances(s: Seq<char>, st: PState)
    requires
        0 <= st.i <= s.len(),
    ensures
        step(s, st) matches StepRes::Next(n) ==> st.i < n.i && n.i <= s.len(),
{
    lemma_skip_props(s, st.i, false);
    let j = skip_trivia(s, st.i, false);
    if j < s.len() && s[j] != '}' && s[j] != '{' {
        if s[j] == '"' {
            lemma_scan_quoted_bounds(s, j + 1);
        } else {
            lemma_scan_unquoted_bounds(s, j);
        }
        let key_res = if s[j] == '"' {
            scan_quoted(s, j + 1)
        } else {
            Some(scan_unquoted(s, j))
        };
        if let Some((key, j2)) = key_res {
            lemma_skip_props(s, j2, false);
            let j3 = skip_trivia(s, j2, false);
            if j3 < s.len() && s[j3] != '}' && s[j3] != '{' {
                if s[j3] == '"' {
                    lemma_scan_quoted_bounds(s, j3 + 1);
                } else {
                    lemma_scan_unquoted_bounds(s, j3);
                }
            }
        }
    }
}

proof fn lemma_iterate_next(s: Seq<char>, st: PState)
    requires
        0 <= st.i <= s.len(),
    ensures
        step(s, st) matches StepRes::Next(n) ==> iterate(s, st) == iterate(s, n),
{
    lemma_step_advances(s, st);
}

proof fn lemma_iterate_pre_skip(s: Seq<char>, a: PState, b: PState)
    requires
        0 <= a.i <= s.len(),
        0 <= b.i <= s.len(),
        skip_trivia(s, a.i, false) == skip_trivia(s, b.i, false),
        a.stack == b.stack,
        a.cur == b.cur,
    ensures
        iterate(s, a) == iterate(s, b),
{
    assert(step(s, a) == step(s, b));
    if step(s, a) matches StepRes::Next(n) {
        lemma_iterate_next(s, a);
        lemma_iterate_next(s, b);
    }
}

proof fn lemma_scan_esc(s: Seq<char>, i: int, t: Seq<char>)
    requires
        0 <= i,
        i + esc(t).len() + 1 <= s.len(),
        s.subrange(i, i + esc(t).len()) == esc(t),
        s[i + esc(t).len()] == '"',
    ensures
        scan_quoted(s, i) == Some((t, i + esc(t).len() + 1)),
    decreases t.len(),
{
    assert forall|x: int| 0 <= x < esc(t).len() implies s[i + x] == #[trigger] esc(t)[x] by {
        assert(esc(t)[x] == s.subrange(i, i + esc(t).len())[x]);
    }
    if t.len() == 0 {
        assert(t =~= Seq::<char>::empty());
    } else {
        let c = t[0];
        let rest = t.drop_first();
        let e0 = esc_char(c);
        let el = e0.len() as int;
        assert(esc(t) == e0 + esc(rest));
        assert forall|x: int| 0 <= x < esc(rest).len() implies s.subrange(
            i + el,
            i + el + esc(rest).len(),
        )[x] == esc(rest)[x] by {
            assert(esc(t)[el + x] == esc(rest)[x]);
            assert(s[i + (el + x)] == esc(t)[el + x]);
        }
        assert(s.subrange(i + el, i + el + esc(rest).len()) =~= esc(rest));
        assert(s[i + esc(t).len()] == '"');
        lemma_scan_esc(s, i + el, rest);
        assert(s[i + 0] == esc(t)[0]);
        if c == '"' || c == '\\' {
            assert(esc(t)[0] == '\\');
            assert(esc(t)[1] == c);
            assert(s[i + 1] == esc(t)[1]);
            assert(s[i] == '\\');
            assert(unescape(s[i + 1]) == c);
            assert(seq![c] + rest =~= t);
        } else {
            assert(esc(t)[0] == c);
            assert(s[i] == c);
            assert(seq![c] + rest =~= t);
        }
    }
}

proof fn lemma_ser_first(es: Entries)
    requires
        es.len() > 0,
    ensures
        ser_entries(es).len() > 0,
        ser_entries(es)[0] == '"',
{
    match es[0].1 {
        Tree::Leaf { s: lv } => {
            assert(quoted(es[0].0)[0] == '"');
        },
        Tree::Node { entries } => {
            assert(quoted(es[0].0)[0] == '"');
        },
    }
}

#[verifier::rlimit(100)]
#[verifier::spinoff_prover]
proof fn lemma_run_entries(s: Seq<char>, st: PState, es: Entries, q: int)
    requires
        0 <= st.i <= s.len(),
        q == skip_trivia(s, st.i, false),
        q + ser_entries(es).len() <= s.len(),
        s.subrange(q, q + ser_entries(es).len()) == ser_entries(es),
        st.stack.len() + depth_entries(es) <= MAX_DEPTH,
    ensures
        iterate(s, st) == iterate(
            s,
            PState { i: q + ser_entries(es).len(), stack: st.stack, cur: st.cur + es },
        ),
    decreases es,
{
    lemma_skip_props(s, st.i, false);
    let L = ser_entries(es).len() as int;
    assert forall|x: int| 0 <= x < L implies s[q + x] == #[trigger] ser_entries(es)[x] by {
        assert(ser_entries(es)[x] == s.subrange(q, q + L)[x]);
    }
    if es.len() == 0 {
        assert(st.cur + es =~= st.cur);
        let b = PState { i: q, stack: st.stack, cur: st.cur + es };
        assert(skip_trivia(s, q, false) == q);
        lemma_iterate_pre_skip(s, st, b);
    } else {
        let e0 = es[0];
        let k = e0.0;
        let rest = es.drop_first();
        let ek = esc(k).len() as int;
        lemma_ser_first(es);
        match e0.1 {
            Tree::Leaf { s: lv } => {
                let ev = esc(lv).len() as int;
                let piece = quoted(k) + seq![' '] + quoted(lv) + seq!['\n'];
                assert(ser_entries(es) == piece + ser_entries(rest));
                assert(piece =~= seq!['"'] + esc(k) + seq!['"', ' ', '"'] + esc(lv) + seq![
                    '"',
                    '\n',
                ]);
                assert(piece.len() == ek + ev + 6);
                assert forall|x: int| 0 <= x < piece.len() implies s[q + x] == #[trigger] piece[x] by {
                    assert(ser_entries(es)[x] == piece[x]);
                }
                assert(s[q + 0] == piece[0]);
                assert(s[q] == '"');
                assert forall|x: int| 0 <= x < ek implies s.subrange(q + 1, q + 1 + ek)[x]
                    == esc(k)[x] by {
                    assert(piece[1 + x] == esc(k)[x]);
                    assert(s[q + (1 + x)] == piece[1 + x]);
                }
                assert(s.subrange(q + 1, q + 1 + ek) =~= esc(k));
                assert(s[q + (1 + ek)] == piece[1 + ek]);
                assert(s[q + 1 + ek] == '"');
                lemma_scan_esc(s, q + 1, k);
                let j2 = q + ek + 2;
                assert(s[q + (ek + 2)] == piece[ek + 2]);
                assert(s[j2] == ' ');
                assert(s[q + (ek + 3)] == piece[ek + 3]);
                assert(s[j2 + 1] == '"');
                assert(skip_trivia(s, j2 + 1, false) == j2 + 1);
                assert(skip_trivia(s, j2, false) == j2 + 1);
                let j3 = j2 + 1;
                assert forall|x: int| 0 <= x < ev implies s.subrange(j3 + 1, j3 + 1 + ev)[x]
                    == esc(lv)[x] by {
                    assert(piece[(ek + 4) + x] == esc(lv)[x]);
                    assert(s[q + ((ek + 4) + x)] == piece[(ek + 4) + x]);
                }
                assert(s.subrange(j3 + 1, j3 + 1 + ev) =~= esc(lv));
                assert(s[q + ((ek + 4) + ev)] == piece[(ek + 4) + ev]);
                assert(s[j3 + 1 + ev] == '"');
                lemma_scan_esc(s, j3 + 1, lv);
                let j4 = j3 + 1 + ev + 1;
                let n = PState {
                    i: j4,
                    stack: st.stack,
                    cur: st.cur.push((k, Tree::Leaf { s: lv })),
                };
                assert(step(s, st) == StepRes::Next(n));
                lemma_iterate_next(s, st);
                assert(s[q + (ek + ev + 5)] == piece[ek + ev + 5]);
                assert(s[j4] == '\n');
                assert(j4 + 1 == q + piece.len());
                assert(skip_trivia(s, j4, false) == skip_trivia(s, j4 + 1, false));
                lemma_skip_props(s, j4 + 1, false);
                let q2 = skip_trivia(s, j4, false);
                assert(st.cur.push((k, Tree::Leaf { s: lv })) + rest =~= st.cur + es);
                if rest.len() == 0 {
                    assert(s.subrange(q2, q2 + 0) =~= ser_entries(rest));
                    lemma_run_entries(s, n, rest, q2);
                    assert(n.cur + rest =~= st.cur + es);
                    assert(skip_trivia(s, q2, false) == q2);
                    assert(skip_trivia(s, q + L, false) == q2);
                    lemma_iterate_pre_skip(
                        s,
                        PState { i: q2, stack: st.stack, cur: n.cur + rest },
                        PState { i: q + L, stack: st.stack, cur: st.cur + es },
                    );
                } else {
                    lemma_ser_first(rest);
                    assert(ser_entries(es)[piece.len() as int + 0] == ser_entries(rest)[0]);
                    assert(s[q + (piece.len() as int + 0)] == ser_entries(es)[piece.len() as int + 0]);
                    assert(s[q + piece.len()] == '"');
                    assert(q2 == q + piece.len());
                    assert forall|x: int| 0 <= x < ser_entries(rest).len() implies s.subrange(
                        q2,
                        q2 + ser_entries(rest).len(),
                    )[x] == ser_entries(rest)[x] by {
                        assert(ser_entries(es)[piece.len() as int + x] == ser_entries(rest)[x]);
                        assert(s[q + (piece.len() as int + x)] == ser_entries(es)[piece.len() as int + x]);
                    }
                    assert(s.subrange(q2, q2 + ser_entries(rest).len()) =~= ser_entries(rest));
                    lemma_run_entries(s, n, rest, q2);
                    assert(n.cur + rest =~= st.cur + es);
                }
            },
            Tree::Node { entries: sub } => {
                let ls = ser_entries(sub).len() as int;
                let piece = quoted(k) + seq!['\n', '{', '\n'] + ser_entries(sub) + seq![
                    '}',
                    '\n',
                ];
                assert(ser_entries(es) == piece + ser_entries(rest));
                assert(piece =~= seq!['"'] + esc(k) + seq!['"', '\n', '{', '\n'] + ser_entries(
                    sub,
                ) + seq!['}', '\n']);
                assert(piece.len() == ek + ls + 7);
                assert forall|x: int| 0 <= x < piece.len() implies s[q + x] == #[trigger] piece[x] by {
                    assert(ser_entries(es)[x] == piece[x]);
                }
                assert(s[q + 0] == piece[0]);
                assert(s[q] == '"');
                assert forall|x: int| 0 <= x < ek implies s.subrange(q + 1, q + 1 + ek)[x]
                    == esc(k)[x] by {
                    assert(piece[1 + x] == esc(k)[x]);
                    assert(s[q + (1 + x)] == piece[1 + x]);
                }
                assert(s.subrange(q + 1, q + 1 + ek) =~= esc(k));
                assert(s[q + (1 + ek)] == piece[1 + ek]);
                assert(s[q + 1 + ek] == '"');
                lemma_scan_esc(s, q + 1, k);
                let j2 = q + ek + 2;
                assert(s[q + (ek + 2)] == piece[ek + 2]);
                assert(s[j2] == '\n');
                assert(s[q + (ek + 3)] == piece[ek + 3]);
                assert(s[j2 + 1] == '{');
                assert(skip_trivia(s, j2 + 1, false) == j2 + 1);
                assert(skip_trivia(s, j2, false) == j2 + 1);
                let j3 = j2 + 1;
                assert(depth_entries(es) >= 1 + depth_entries(sub));
                let n1 = PState {
                    i: j3 + 1,
                    stack: st.stack.push((k, st.cur)),
                    cur: Seq::empty(),
                };
                assert(step(s, st) == StepRes::Next(n1));
                lemma_iterate_next(s, st);
                assert(s[q + (ek + 4)] == piece[ek + 4]);
                assert(s[n1.i] == '\n');
                let start_sub = q + ek + 5;
                assert(n1.i + 1 == start_sub);
                assert(skip_trivia(s, n1.i, false) == skip_trivia(s, start_sub, false));
                assert forall|x: int| 0 <= x < ls implies s.subrange(start_sub, start_sub + ls)[x]
                    == ser_entries(sub)[x] by {
                    assert(piece[(ek + 5) + x] == ser_entries(sub)[x]);
                    assert(s[q + ((ek + 5) + x)] == piece[(ek + 5) + x]);
                }
                assert(s.subrange(start_sub, start_sub + ls) =~= ser_entries(sub));
                if sub.len() > 0 {
                    lemma_ser_first(sub);
                    assert(s.subrange(start_sub, start_sub + ls)[0] == ser_entries(sub)[0]);
                    assert(s[start_sub] == '"');
                } else {
                    assert(s[q + (ek + 5)] == piece[ek + 5]);
                    assert(s[start_sub] == '}');
                }
                assert(skip_trivia(s, start_sub, false) == start_sub);
                lemma_run_entries(s, n1, sub, start_sub);
                let n2 = PState {
                    i: start_sub + ls,
                    stack: n1.stack,
                    cur: Seq::empty() + sub,
                };
                assert(s[q + ((ek + 5) + ls)] == piece[(ek + 5) + ls]);
                assert(s[n2.i] == '}');
                assert(skip_trivia(s, n2.i, false) == n2.i);
                assert(n1.stack.last() == (k, st.cur));
                assert(n1.stack.drop_last() =~= st.stack);
                assert(Seq::empty() + sub =~= sub);
                let n3 = PState {
                    i: n2.i + 1,
                    stack: st.stack,
                    cur: st.cur.push((k, Tree::Node { entries: sub })),
                };
                assert(step(s, n2) == StepRes::Next(n3));
                lemma_iterate_next(s, n2);
                assert(s[q + ((ek + 6) + ls)] == piece[(ek + 6) + ls]);
                assert(s[n3.i] == '\n');
                assert(n3.i + 1 == q + piece.len());
                assert(skip_trivia(s, n3.i, false) == skip_trivia(s, n3.i + 1, false));
                lemma_skip_props(s, n3.i + 1, false);
                let q2 = skip_trivia(s, n3.i, false);
                assert(st.cur.push((k, Tree::Node { entries: sub })) + rest =~= st.cur + es);
                if rest.len() == 0 {
                    assert(s.subrange(q2, q2 + 0) =~= ser_entries(rest));
                    lemma_run_entries(s, n3, rest, q2);
                    assert(n3.cur + rest =~= st.cur + es);
                    assert(skip_trivia(s, q2, false) == q2);
                    assert(skip_trivia(s, q + L, false) == q2);
                    lemma_iterate_pre_skip(
                        s,
                        PState { i: q2, stack: st.stack, cur: n3.cur + rest },
                        PState { i: q + L, stack: st.stack, cur: st.cur + es },
                    );
                } else {
                    lemma_ser_first(rest);
                    assert(ser_entries(es)[piece.len() as int + 0] == ser_entries(rest)[0]);
                    assert(s[q + (piece.len() as int + 0)] == ser_entries(es)[piece.len() as int + 0]);
                    assert(s[q + piece.len()] == '"');
                    assert(q2 == q + piece.len());
                    assert forall|x: int| 0 <= x < ser_entries(rest).len() implies s.subrange(
                        q2,
                        q2 + ser_entries(rest).len(),
                    )[x] == ser_entries(rest)[x] by {
                        assert(ser_entries(es)[piece.len() as int + x] == ser_entries(rest)[x]);
                        assert(s[q + (piece.len() as int + x)] == ser_entries(es)[piece.len() as int + x]);
                    }
                    assert(s.subrange(q2, q2 + ser_entries(rest).len()) =~= ser_entries(rest));
                    lemma_run_entries(s, n3, rest, q2);
                    assert(n3.cur + rest =~= st.cur + es);
                }
            },
        }
    }
}

/// The round-trip law: the canonical text of any node's entries, fed
/// back to the parser, yields exactly those entries -- leaf strings,
/// duplicate keys and their order unchanged -- for every tree within
/// the parser's depth bound.
pub proof fn lemma_round_trip(es: Entries)
    requires
        depth_entries(es) <= MAX_DEPTH,
    ensures
        spec_parse(ser_entries(es)) == ParseOut::Parsed(es),
{
    let s = ser_entries(es);
    let init = PState { i: 0, stack: Seq::empty(), cur: Seq::empty() };
    assert(s.subrange(0, s.len() as int) =~= s);
    if es.len() == 0 {
        assert(step(s, init) == StepRes::Done(Seq::empty()));
        assert(es =~= Seq::<(Seq<char>, Tree)>::empty());
    } else {
        lemma_ser_first(es);
        assert(skip_trivia(s, 0, false) == 0);
        lemma_run_entries(s, init, es, 0);
        let fin = PState {
            i: s.len() as int,
            stack: Seq::empty(),
            cur: Seq::empty() + es,
        };
        assert(skip_trivia(s, s.len() as int, false) == s.len());
        assert(step(s, fin) == StepRes::Done(fin.cur));
        assert(Seq::<(Seq<char>, Tree)>::empty() + es =~= es);
    }
}

/// Duplicate keys at one level are never collapsed: two leaf entries
/// under the same key survive the canonical writer and the parser as
/// the same two distinct entries, in the same order.
pub proof fn lemma_duplicates_preserved(k: Seq<char>, v1: Seq<char>, v2: Seq<char>)
    ensures
        ({
            let es = seq![(k, Tree::Leaf { s: v1 }), (k, Tree::Leaf { s: v2 })];
            spec_parse(ser_entries(es)) == ParseOut::Parsed(es)
        }),
{
    let es = seq![(k, Tree::Leaf { s: v1 }), (k, Tree::Leaf { s: v2 })];
    assert(es.drop_first() =~= seq![(k, Tree::Leaf { s: v2 })]);
    assert(es.drop_first().drop_first() =~= Seq::<(Seq<char>, Tree)>::empty());
    assert(depth_entries(Seq::<(Seq<char>, Tree)>::empty()) == 0);
    assert(depth_entries(seq![(k, Tree::Leaf { s: v2 })]) == 0);
    assert(depth_entries(es) == 0);
    lemma_round_trip(es);
}

} // verus!
