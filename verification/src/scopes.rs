//! Scope tracker: from the full text of a source file, recover the ordered
//! list of brace-delimited scope spans.
//!
//! The text is scanned line by line, each line numbered from zero.  A line
//! whose first non-whitespace character is `#` is a full-line comment and
//! contributes no brace tokens (inline `#` after code is not honoured, and
//! braces inside string or character literals are not excluded).  On any
//! other line, every `{` reserves the next slot of the output and goes on a
//! stack of pending scopes; every `}` closes the most recent pending scope,
//! resolving its slot to the pair of its opening and closing line.  The
//! output lists the spans in the order the opening braces were met
//! (outermost first for nested pairs).
use vstd::pervasive::VecAdditionalExecFns;
use vstd::prelude::*;

verus! {

/// Why a scope scan of a text failed.
#[derive(Clone, Copy, Debug, PartialEq, Eq, Structural)]
pub enum ScopeError {
    /// A closing brace was met while no opening brace was pending.
    Unmatched,
    /// The end of the text was reached with an opening brace still pending.
    Unterminated,
}

/// One brace-delimited scope: the line of its `{` and the line of its `}`.
#[derive(Clone, Copy, Debug, PartialEq, Eq, Structural)]
pub struct ScopeSpan {
    pub start_line: usize,
    pub end_line: usize,
}

/// Mathematical image of a `ScopeSpan`.
pub ghost struct SpanModel {
    pub start: nat,
    pub end: nat,
}

impl View for ScopeSpan {
    type V = SpanModel;

    open spec fn view(&self) -> SpanModel {
        SpanModel { start: self.start_line as nat, end: self.end_line as nat }
    }
}

/// The spans a sequence of scope spans stands for, in order.
pub open spec fn spans_model(v: Seq<ScopeSpan>) -> Seq<SpanModel> {
    v.map_values(|sp: ScopeSpan| sp@)
}

/// An opening brace waiting for its closing brace: the line it was seen on
/// and the slot reserved for it in the output.
pub ghost struct PendingModel {
    pub start: nat,
    pub idx: nat,
}

/// The whole state of the line-by-line scan after some prefix of the text.
pub ghost struct Scan {
    /// Zero-based number of the line being read.
    pub line: nat,
    /// Whether a non-whitespace character was already seen on this line.
    pub started: bool,
    /// Whether this line's first non-whitespace character was `#`.
    pub comment: bool,
    /// Pending opening braces, innermost last.
    pub stack: Seq<PendingModel>,
    /// One slot per opening brace seen, in opening order; `None` until closed.
    pub slots: Seq<Option<SpanModel>>,
    /// Whether a closing brace was ever met with nothing pending.
    pub unmatched: bool,
    /// Every brace character read outside comment lines, in order.
    pub toks: Seq<char>,
}

/// Whitespace for the purpose of finding a line's first meaningful character.
pub open spec fn is_ws(c: char) -> bool {
    c == ' ' || c == '\t' || c == '\r'
}

/// The scan state before any character has been read.
pub open spec fn init_scan() -> Scan {
    Scan {
        line: 0,
        started: false,
        comment: false,
        stack: Seq::empty(),
        slots: Seq::empty(),
        unmatched: false,
        toks: Seq::empty(),
    }
}

/// Effect of one character of a line that is being honoured.
pub open spec fn token_step(st: Scan, c: char) -> Scan {
    if c == '{' {
        Scan {
            stack: st.stack.push(PendingModel { start: st.line, idx: st.slots.len() }),
            slots: st.slots.push(None),
            toks: st.toks.push('{'),
            ..st
        }
    } else if c == '}' {
        if st.stack.len() == 0 {
            Scan { unmatched: true, toks: st.toks.push('}'), ..st }
        } else {
            Scan {
                stack: st.stack.drop_last(),
                slots: st.slots.update(
                    st.stack.last().idx as int,
                    Some(SpanModel { start: st.stack.last().start, end: st.line }),
                ),
                toks: st.toks.push('}'),
                ..st
            }
        }
    } else {
        st
    }
}

/// Effect of one character of the text on the scan state.
pub open spec fn scan_step(st: Scan, c: char) -> Scan {
    if c == '\n' {
        Scan { line: st.line + 1, started: false, comment: false, ..st }
    } else if !st.started {
        if is_ws(c) {
            st
        } else if c == '#' {
            Scan { started: true, comment: true, ..st }
        } else {
            token_step(Scan { started: true, comment: false, ..st }, c)
        }
    } else if st.comment {
        st
    } else {
        token_step(st, c)
    }
}

/// The scan state after reading `s`, starting from `st`.
pub open spec fn scan_from(st: Scan, s: Seq<char>) -> Scan
    decreases s.len(),
{
    if s.len() == 0 {
        st
    } else {
        scan_step(scan_from(st, s.drop_last()), s.last())
    }
}

/// The scan state after reading the whole text `s`.
pub open spec fn scan(s: Seq<char>) -> Scan {
    scan_from(init_scan(), s)
}

/// Whether some reserved slot was never resolved.
pub open spec fn has_unresolved(st: Scan) -> bool {
    exists|j: int| 0 <= j < st.slots.len() && st.slots[j] is None
}

/// The error, if any, that scanning `s` must report.  An unmatched closing
/// brace is reported even if unresolved opening braces remain as well.
pub open spec fn scope_error_of(s: Seq<char>) -> Option<ScopeError> {
    let st = scan(s);
    if st.unmatched {
        Some(ScopeError::Unmatched)
    } else if has_unresolved(st) {
        Some(ScopeError::Unterminated)
    } else {
        None
    }
}

/// The span a resolved slot stands for.
pub open spec fn resolved(o: Option<SpanModel>) -> SpanModel {
    match o {
        Some(sp) => sp,
        None => SpanModel { start: 0, end: 0 },
    }
}

/// The scope spans of `s`, in opening order; meaningful when `scope_error_of`
/// reports no error.
pub open spec fn scopes_of(s: Seq<char>) -> Seq<SpanModel> {
    scan(s).slots.map_values(|o: Option<SpanModel>| resolved(o))
}

/// How many times `c` occurs in `t`.
pub open spec fn count_char(t: Seq<char>, c: char) -> nat
    decreases t.len(),
{
    if t.len() == 0 {
        0
    } else {
        count_char(t.drop_last(), c) + if t.last() == c { 1nat } else { 0nat }
    }
}

/// The opening braces of a token sequence.
pub open spec fn opens(t: Seq<char>) -> nat {
    count_char(t, '{')
}

/// The closing braces of a token sequence.
pub open spec fn closes(t: Seq<char>) -> nat {
    count_char(t, '}')
}

/// No prefix of `t` closes more braces than it opens.
pub open spec fn never_overclosed(t: Seq<char>) -> bool {
    forall|k: int| 0 <= k <= t.len() ==> closes(#[trigger] t.take(k)) <= opens(t.take(k))
}

/// The brace tokens of `t` pair up exactly.
pub open spec fn balanced(t: Seq<char>) -> bool {
    never_overclosed(t) && opens(t) == closes(t)
}

/// The brace characters of `s` outside comment lines, in reading order.
pub open spec fn effective_tokens(s: Seq<char>) -> Seq<char> {
    scan(s).toks
}

/// Everything a scan state keeps true of itself, from the empty text on.
pub open spec fn scan_inv(st: Scan) -> bool {
    &&& forall|j: int|
        0 <= j < st.stack.len() ==> {
            &&& (#[trigger] st.stack[j]).idx < st.slots.len()
            &&& st.stack[j].start <= st.line
            &&& st.slots[st.stack[j].idx as int] is None
        }
    &&& forall|j: int, k: int|
        0 <= j < k < st.stack.len() ==> (#[trigger] st.stack[j]).idx < (#[trigger] st.stack[k]).idx
    &&& forall|j: int|
        0 <= j < st.slots.len() && (#[trigger] st.slots[j]) is None ==> exists|k: int|
            0 <= k < st.stack.len() && (#[trigger] st.stack[k]).idx == j
    &&& forall|j: int|
        0 <= j < st.slots.len() && (#[trigger] st.slots[j]) is Some ==> {
            &&& st.slots[j]->0.start <= st.slots[j]->0.end
            &&& st.slots[j]->0.end <= st.line
        }
    &&& st.slots.len() == opens(st.toks)
    &&& !st.unmatched ==> st.stack.len() + closes(st.toks) == opens(st.toks)
    &&& !st.unmatched ==> never_overclosed(st.toks)
    &&& st.unmatched ==> exists|k: int|
        0 <= k <= st.toks.len() && closes(#[trigger] st.toks.take(k)) > opens(st.toks.take(k))
}

proof fn lemma_count_push(t: Seq<char>, c0: char, c: char)
    ensures
        count_char(t.push(c0), c) == count_char(t, c) + if c0 == c {
            1nat
        } else {
            0nat
        },
{
    assert(t.push(c0).drop_last() =~= t);
    assert(t.push(c0).last() == c0);
}

proof fn lemma_take_push(t: Seq<char>, c0: char, k: int)
    requires
        0 <= k <= t.len(),
    ensures
        t.push(c0).take(k) =~= t.take(k),
{
}

/// Appending one character to the tokens keeps every prefix bound, and the
/// new full prefix is bounded as long as the counts say so.
proof fn lemma_never_overclosed_push(t: Seq<char>, c0: char)
    requires
        never_overclosed(t),
        closes(t.push(c0)) <= opens(t.push(c0)),
    ensures
        never_overclosed(t.push(c0)),
{
    assert forall|k: int| 0 <= k <= t.push(c0).len() implies closes(
        #[trigger] t.push(c0).take(k),
    ) <= opens(t.push(c0).take(k)) by {
        if k <= t.len() {
            lemma_take_push(t, c0, k);
            assert(t.push(c0).take(k) == t.take(k));
        } else {
            assert(t.push(c0).take(k) =~= t.push(c0));
        }
    }
}

/// One scan step preserves the scan invariant and never moves the line back.
proof fn lemma_step_inv(st: Scan, c: char)
    requires
        scan_inv(st),
    ensures
        scan_inv(scan_step(st, c)),
        scan_step(st, c).line >= st.line,
{
    let st1 = scan_step(st, c);
    if c == '\n' || (!st.started && is_ws(c)) || (!st.started && c == '#') || (st.started
        && st.comment) {
        assert(scan_inv(st1));
    } else {
        // a token step, possibly after marking the line started
        let stt = if !st.started {
            Scan { started: true, comment: false, ..st }
        } else {
            st
        };
        assert(scan_inv(stt));
        assert(st1 == token_step(stt, c));
        lemma_token_inv(stt, c);
    }
}

proof fn lemma_token_inv(st: Scan, c: char)
    requires
        scan_inv(st),
    ensures
        scan_inv(token_step(st, c)),
        token_step(st, c).line == st.line,
{
    let st1 = token_step(st, c);
    if c == '{' {
        lemma_count_push(st.toks, '{', '{');
        lemma_count_push(st.toks, '{', '}');
        if !st.unmatched {
            lemma_never_overclosed_push(st.toks, '{');
        } else {
            let k = choose|k: int|
                0 <= k <= st.toks.len() && closes(#[trigger] st.toks.take(k)) > opens(
                    st.toks.take(k),
                );
            lemma_take_push(st.toks, '{', k);
            assert(st1.toks.take(k) == st.toks.take(k));
        }
        assert forall|j: int| 0 <= j < st1.slots.len() && (#[trigger] st1.slots[j]) is None
            implies exists|k: int| 0 <= k < st1.stack.len() && (#[trigger] st1.stack[k]).idx == j by {
            if j < st.slots.len() {
                let k = choose|k: int| 0 <= k < st.stack.len() && (#[trigger] st.stack[k]).idx == j;
                assert(st1.stack[k].idx == j);
            } else {
                assert(st1.stack[st1.stack.len() - 1].idx == j);
            }
        }
        assert(scan_inv(st1));
    } else if c == '}' {
        lemma_count_push(st.toks, '}', '{');
        lemma_count_push(st.toks, '}', '}');
        if st.stack.len() == 0 {
            if !st.unmatched {
                assert(closes(st1.toks.take(st1.toks.len() as int)) > opens(
                    st1.toks.take(st1.toks.len() as int),
                )) by {
                    assert(st1.toks.take(st1.toks.len() as int) =~= st1.toks);
                }
            } else {
                let k = choose|k: int|
                    0 <= k <= st.toks.len() && closes(#[trigger] st.toks.take(k)) > opens(
                        st.toks.take(k),
                    );
                lemma_take_push(st.toks, '}', k);
                assert(st1.toks.take(k) == st.toks.take(k));
            }
            assert(scan_inv(st1));
        } else {
            let p = st.stack.last();
            let top: int = st.stack.len() - 1;
            assert(st.stack[top].idx < st.slots.len());
            if !st.unmatched {
                lemma_never_overclosed_push(st.toks, '}');
            } else {
                let k = choose|k: int|
                    0 <= k <= st.toks.len() && closes(#[trigger] st.toks.take(k)) > opens(
                        st.toks.take(k),
                    );
                lemma_take_push(st.toks, '}', k);
                assert(st1.toks.take(k) == st.toks.take(k));
            }
            assert forall|j: int| 0 <= j < st1.slots.len() && (#[trigger] st1.slots[j]) is None
                implies exists|k: int|
                0 <= k < st1.stack.len() && (#[trigger] st1.stack[k]).idx == j by {
                assert(st.slots[j] is None);
                let k = choose|k: int| 0 <= k < st.stack.len() && (#[trigger] st.stack[k]).idx == j;
                assert(j != p.idx);
                assert(k != top);
                assert(st1.stack[k].idx == j);
            }
            assert(scan_inv(st1));
        }
    }
}

/// The scan invariant holds after reading any text.
proof fn lemma_scan_inv(s: Seq<char>)
    ensures
        scan_inv(scan(s)),
    decreases s.len(),
{
    if s.len() == 0 {
        assert(scan(s) == init_scan());
    } else {
        lemma_scan_inv(s.drop_last());
        lemma_step_inv(scan(s.drop_last()), s.last());
    }
}

/// Reading one more character advances the scan by one step.
proof fn lemma_scan_snoc(s: Seq<char>, i: int)
    requires
        0 <= i < s.len(),
    ensures
        scan(s.take(i + 1)) == scan_step(scan(s.take(i)), s[i]),
{
    assert(s.take(i + 1).drop_last() =~= s.take(i));
    assert(s.take(i + 1).last() == s[i]);
}

/// Reading a concatenation is reading the parts in turn.
proof fn lemma_scan_from_app(st: Scan, a: Seq<char>, b: Seq<char>)
    ensures
        scan_from(st, a + b) == scan_from(scan_from(st, a), b),
    decreases b.len(),
{
    if b.len() == 0 {
        assert(a + b =~= a);
    } else {
        lemma_scan_from_app(st, a, b.drop_last());
        assert((a + b).drop_last() =~= a + b.drop_last());
        assert((a + b).last() == b.last());
    }
}

/// Once a closing brace went unmatched, the rest of the text cannot undo it.
proof fn lemma_unmatched_sticky(st: Scan, s: Seq<char>)
    requires
        st.unmatched,
    ensures
        scan_from(st, s).unmatched,
    decreases s.len(),
{
    if s.len() > 0 {
        lemma_unmatched_sticky(st, s.drop_last());
    }
}

/// Balanced effective braces: the scan succeeds, yields exactly one span
/// per opening brace outside comment lines, and every span starts no later
/// than it ends.
pub proof fn lemma_balanced_scan_succeeds(s: Seq<char>)
    requires
        balanced(effective_tokens(s)),
    ensures
        scope_error_of(s) is None,
        scopes_of(s).len() == opens(effective_tokens(s)),
        forall|j: int|
            0 <= j < scopes_of(s).len() ==> (#[trigger] scopes_of(s)[j]).start <= scopes_of(
                s,
            )[j].end,
{
    lemma_scan_inv(s);
    let st = scan(s);
    if st.unmatched {
        let k = choose|k: int|
            0 <= k <= st.toks.len() && closes(#[trigger] st.toks.take(k)) > opens(st.toks.take(k));
        assert(closes(st.toks.take(k)) <= opens(st.toks.take(k)));
    }
    assert(st.stack.len() == 0);
    if has_unresolved(st) {
        let j = choose|j: int| 0 <= j < st.slots.len() && st.slots[j] is None;
        let k = choose|k: int| 0 <= k < st.stack.len() && (#[trigger] st.stack[k]).idx == j;
    }
    assert forall|j: int| 0 <= j < scopes_of(s).len() implies (#[trigger] scopes_of(s)[j]).start
        <= scopes_of(s)[j].end by {
        assert(scopes_of(s)[j] == resolved(st.slots[j]));
        assert(st.slots[j] is Some);
    }
}

/// Some prefix of the effective braces closes more than it opens: the scan
/// fails with `Unmatched`.
pub proof fn lemma_overclosed_unmatched(s: Seq<char>)
    requires
        !never_overclosed(effective_tokens(s)),
    ensures
        scope_error_of(s) == Some(ScopeError::Unmatched),
{
    lemma_scan_inv(s);
}

/// More effective braces open than close, while no prefix overcloses: the
/// scan fails with `Unterminated`.
pub proof fn lemma_unterminated(s: Seq<char>)
    requires
        never_overclosed(effective_tokens(s)),
        opens(effective_tokens(s)) > closes(effective_tokens(s)),
    ensures
        scope_error_of(s) == Some(ScopeError::Unterminated),
{
    lemma_scan_inv(s);
    let st = scan(s);
    if st.unmatched {
        let k = choose|k: int|
            0 <= k <= st.toks.len() && closes(#[trigger] st.toks.take(k)) > opens(st.toks.take(k));
        assert(closes(st.toks.take(k)) <= opens(st.toks.take(k)));
    }
    assert(st.stack.len() > 0);
    assert(st.slots[st.stack[0].idx as int] is None);
    assert(has_unresolved(st));
}

/// No character of `line` is a newline.
pub open spec fn no_newline(line: Seq<char>) -> bool {
    forall|j: int| 0 <= j < line.len() ==> line[j] != '\n'
}

/// The line's first non-whitespace character is `#`.
pub open spec fn is_comment_line(line: Seq<char>) -> bool
    decreases line.len(),
{
    if line.len() == 0 {
        false
    } else if is_ws(line[0]) {
        is_comment_line(line.drop_first())
    } else {
        line[0] == '#'
    }
}

/// Reading a sequence is reading its first character, then the rest.
proof fn lemma_scan_from_cons(st: Scan, s: Seq<char>)
    requires
        s.len() > 0,
    ensures
        scan_from(st, s) == scan_from(scan_step(st, s[0]), s.drop_first()),
    decreases s.len(),
{
    if s.len() == 1 {
        assert(s.drop_last() =~= Seq::<char>::empty());
        assert(s.drop_first() =~= Seq::<char>::empty());
        assert(scan_from(st, s) == scan_step(scan_from(st, s.drop_last()), s.last()));
        assert(scan_from(st, s) == scan_from(scan_step(st, s[0]), s.drop_first()));
    } else {
        lemma_scan_from_cons(st, s.drop_last());
        let st0 = scan_step(st, s[0]);
        assert(s.drop_last()[0] == s[0]);
        assert(s.drop_last().drop_first() =~= s.drop_first().drop_last());
        assert(s.drop_first().last() == s.last());
        assert(scan_from(st, s) == scan_step(scan_from(st, s.drop_last()), s.last()));
        assert(scan_from(st, s.drop_last()) == scan_from(st0, s.drop_first().drop_last()));
        assert(scan_from(st0, s.drop_first()) == scan_step(
            scan_from(st0, s.drop_first().drop_last()),
            s.drop_first().last(),
        ));
    }
}

/// Inside a comment line, characters change nothing.
proof fn lemma_comment_absorbs(st: Scan, s: Seq<char>)
    requires
        st.started,
        st.comment,
        no_newline(s),
    ensures
        scan_from(st, s) == st,
    decreases s.len(),
{
    if s.len() > 0 {
        lemma_comment_absorbs(st, s.drop_last());
    }
}

/// Reading a comment line up to (not including) its newline only marks the
/// line as started and commented.
proof fn lemma_comment_line_scan(st: Scan, line: Seq<char>)
    requires
        !st.started,
        is_comment_line(line),
        no_newline(line),
    ensures
        scan_from(st, line) == (Scan { started: true, comment: true, ..st }),
    decreases line.len(),
{
    lemma_scan_from_cons(st, line);
    let c = line[0];
    if is_ws(c) {
        assert(scan_step(st, c) == st);
        lemma_comment_line_scan(st, line.drop_first());
    } else {
        let st1 = Scan { started: true, comment: true, ..st };
        assert(scan_step(st, c) == st1);
        lemma_comment_absorbs(st1, line.drop_first());
    }
}

/// A line whose first non-whitespace character is `#` never affects brace
/// accounting: reading it and its terminating newline only advances the
/// line count, leaving pending scopes, output slots, effective tokens and
/// the unmatched flag exactly as they were.
pub proof fn lemma_comment_line_no_effect(st: Scan, line: Seq<char>)
    requires
        !st.started,
        is_comment_line(line),
        no_newline(line),
    ensures
        scan_from(st, line.push('\n')) == (Scan {
            line: st.line + 1,
            started: false,
            comment: false,
            ..st
        }),
{
    assert(line.push('\n').drop_last() =~= line);
    assert(line.push('\n').last() == '\n');
    lemma_comment_line_scan(st, line);
}

/// An opening brace waiting on the scan stack: its line and its output slot.
struct Pending {
    start: usize,
    idx: usize,
}

spec fn pending_model(p: Pending) -> PendingModel {
    PendingModel { start: p.start as nat, idx: p.idx as nat }
}

/// The slot state a partly resolved output entry stands for.
pub open spec fn slot_model(o: Option<ScopeSpan>) -> Option<SpanModel> {
    match o {
        Some(sp) => Some(sp@),
        None => None,
    }
}

spec fn stack_model(st: Seq<Pending>) -> Seq<PendingModel> {
    st.map_values(|p: Pending| pending_model(p))
}

spec fn slots_model(sl: Seq<Option<ScopeSpan>>) -> Seq<Option<SpanModel>> {
    sl.map_values(|o: Option<ScopeSpan>| slot_model(o))
}

/// The scan of the first `i` characters of `s` is mirrored exactly by the
/// given line bookkeeping, pending stack and output slots.
spec fn scan_matches(
    s: Seq<char>,
    i: int,
    line: usize,
    started: bool,
    comment: bool,
    stack: Seq<Pending>,
    slots: Seq<Option<ScopeSpan>>,
) -> bool {
    let st = scan(s.take(i));
    &&& !st.unmatched
    &&& st.line == line as nat
    &&& st.started == started
    &&& st.comment == comment
    &&& st.stack == stack_model(stack)
    &&& st.slots == slots_model(slots)
}

/// Scan `text` for brace-delimited scopes, line by line.
///
/// On success the spans come in the order their opening braces were met,
/// one per `{` outside comment lines, each with `start_line <= end_line`.
/// A closing brace with nothing pending fails with `Unmatched`; an opening
/// brace still pending at the end of the text fails with `Unterminated`.
pub fn compute_scopes(text: &str) -> (r: Result<Vec<ScopeSpan>, ScopeError>)
    ensures
        match r {
            Ok(v) => {
                &&& scope_error_of(text@) is None
                &&& spans_model(v@) == scopes_of(text@)
                &&& v@.len() == opens(effective_tokens(text@))
                &&& forall|j: int|
                    0 <= j < v@.len() ==> (#[trigger] v@[j]).start_line <= v@[j].end_line
            },
            Err(e) => scope_error_of(text@) == Some(e),
        },
{
    let n = text.unicode_len();
    let mut i: usize = 0;
    let mut line: usize = 0;
    let mut started: bool = false;
    let mut comment: bool = false;
    let mut stack: Vec<Pending> = Vec::new();
    let mut slots: Vec<Option<ScopeSpan>> = Vec::new();
    proof {
        assert(text@.take(0) =~= Seq::<char>::empty());
        assert(stack_model(stack@) =~= Seq::<PendingModel>::empty());
        assert(slots_model(slots@) =~= Seq::<Option<SpanModel>>::empty());
    }
    while i < n
        invariant
            n == text@.len(),
            i <= n,
            line <= i,
            scan_matches(text@, i as int, line, started, comment, stack@, slots@),
        decreases n - i,
    {
        let ghost st = scan(text@.take(i as int));
        let ghost st1 = scan(text@.take(i as int + 1));
        proof {
            lemma_scan_snoc(text@, i as int);
            lemma_scan_inv(text@.take(i as int));
        }
        let c = text.get_char(i);
        if c == '\n' {
            line = line + 1;
            started = false;
            comment = false;
        } else {
            let mut effective: bool = true;
            if !started {
                if c == ' ' || c == '\t' || c == '\r' {
                    effective = false;
                } else {
                    started = true;
                    comment = c == '#';
                    effective = c != '#';
                }
            } else if comment {
                effective = false;
            }
            if effective {
                if c == '{' {
                    stack.push(Pending { start: line, idx: slots.len() });
                    slots.push(None);
                    proof {
                        assert(stack_model(stack@) =~= st.stack.push(
                            PendingModel { start: st.line, idx: st.slots.len() },
                        ));
                        assert(slots_model(slots@) =~= st.slots.push(None));
                    }
                } else if c == '}' {
                    match stack.pop() {
                        Some(p) => {
                            proof {
                                assert(st.stack.len() == stack@.len() + 1);
                                assert(st.stack.last() == stack_model(
                                    stack@.push(p),
                                ).last());
                                assert(st.stack.last() == pending_model(p));
                                assert(st.stack[st.stack.len() - 1].idx < st.slots.len());
                                assert(stack_model(stack@) =~= st.stack.drop_last());
                            }
                            slots.set(
                                p.idx,
                                Some(ScopeSpan { start_line: p.start, end_line: line }),
                            );
                            proof {
                                assert(slots_model(slots@) =~= st.slots.update(
                                    pending_model(p).idx as int,
                                    Some(SpanModel { start: pending_model(p).start, end: st.line }),
                                ));
                            }
                        },
                        None => {
                            proof {
                                assert(st.stack.len() == 0);
                                assert(st1.unmatched);
                                assert(text@ =~= text@.take(i as int + 1) + text@.skip(
                                    i as int + 1,
                                ));
                                lemma_scan_from_app(
                                    init_scan(),
                                    text@.take(i as int + 1),
                                    text@.skip(i as int + 1),
                                );
                                lemma_unmatched_sticky(st1, text@.skip(i as int + 1));
                            }
                            return Err(ScopeError::Unmatched);
                        },
                    }
                }
            }
        }
        i = i + 1;
    }
    proof {
        assert(text@.take(n as int) =~= text@);
        lemma_scan_inv(text@);
    }
    let ghost stf = scan(text@);
    let mut out: Vec<ScopeSpan> = Vec::new();
    let mut j: usize = 0;
    while j < slots.len()
        invariant
            j <= slots@.len(),
            slots_model(slots@) == stf.slots,
            stf == scan(text@),
            !stf.unmatched,
            out@.len() == j,
            forall|k: int| 0 <= k < j ==> (#[trigger] slots@[k]) is Some,
            forall|k: int| 0 <= k < j ==> (#[trigger] out@[k]) == slots@[k]->0,
        decreases slots@.len() - j,
    {
        match slots[j] {
            Some(sp) => {
                out.push(sp);
            },
            None => {
                proof {
                    assert(slots_model(slots@)[j as int] is None);
                    assert(has_unresolved(stf));
                }
                return Err(ScopeError::Unterminated);
            },
        }
        j = j + 1;
    }
    proof {
        lemma_scan_inv(text@);
        assert forall|k: int| 0 <= k < stf.slots.len() implies (#[trigger] stf.slots[k]) is Some by {
            assert(slots_model(slots@)[k] == slot_model(slots@[k]));
        }
        assert(!has_unresolved(stf));
        assert(spans_model(out@) =~= scopes_of(text@)) by {
            assert forall|k: int| 0 <= k < out@.len() implies spans_model(out@)[k] == scopes_of(
                text@,
            )[k] by {
                assert(slots_model(slots@)[k] == slot_model(slots@[k]));
            }
        }
        assert forall|k: int| 0 <= k < out@.len() implies (#[trigger] out@[k]).start_line
            <= out@[k].end_line by {
            assert(slots_model(slots@)[k] == slot_model(slots@[k]));
            assert(stf.slots[k] is Some);
            assert(stf.slots[k]->0.start <= stf.slots[k]->0.end);
        }
    }
    Ok(out)
}

} // verus!
