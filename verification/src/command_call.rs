//! The parsing core: a tokenizer that turns one chunk of input into
//! shell-style words, resolving quoting and escaping, and a call builder
//! that splits a raw line on `;`, classifies the words of each chunk, and
//! yields structured command calls.

use vstd::prelude::*;

use crate::text::{
    chars_to_string, is_shell_whitespace, is_whitespace_char, lower_of, lowercase, str_to_char_vec,
};

verus! {

/// Transient tokenizer state: the words emitted so far, the word under
/// construction, and the quoting and escaping modes.  The two quote modes
/// are mutually exclusive; `escaped` is set right after an unresolved
/// backslash outside single quotes.
#[verifier::ext_equal]
pub struct ScanState {
    pub tokens: Seq<Seq<char>>,
    pub current: Seq<char>,
    pub in_single_quote: bool,
    pub in_double_quote: bool,
    pub escaped: bool,
}

/// The state in which every scan begins: nothing read, no mode active.
pub open spec fn initial_scan_state() -> ScanState {
    ScanState {
        tokens: Seq::empty(),
        current: Seq::empty(),
        in_single_quote: false,
        in_double_quote: false,
        escaped: false,
    }
}

/// What the character after an unescaped backslash contributes to the
/// current word.  Outside quotes the character is copied alone; inside
/// double quotes only `"`, `\` and `$` drop the backslash, every other
/// character keeps it.
pub open spec fn escape_expansion(c: char, in_double_quote: bool) -> Seq<char> {
    if in_double_quote {
        if c == '"' || c == '\\' || c == '$' {
            seq![c]
        } else {
            seq!['\\', c]
        }
    } else {
        seq![c]
    }
}

/// One step of the scan: how the tokenizer state changes on one character.
pub open spec fn scan_step(st: ScanState, c: char) -> ScanState {
    if st.escaped {
        ScanState {
            current: st.current + escape_expansion(c, st.in_double_quote),
            escaped: false,
            ..st
        }
    } else if c == '\\' && !st.in_single_quote {
        ScanState { escaped: true, ..st }
    } else if c == '\'' && !st.in_double_quote {
        ScanState { in_single_quote: !st.in_single_quote, ..st }
    } else if c == '"' && !st.in_single_quote {
        ScanState { in_double_quote: !st.in_double_quote, ..st }
    } else if is_shell_whitespace(c) && !st.in_single_quote && !st.in_double_quote {
        if st.current.len() > 0 {
            ScanState { tokens: st.tokens.push(st.current), current: Seq::empty(), ..st }
        } else {
            st
        }
    } else {
        ScanState { current: st.current.push(c), ..st }
    }
}

/// The tokenizer state after scanning a whole sequence of characters.
pub open spec fn scan(s: Seq<char>) -> ScanState
    decreases s.len(),
{
    if s.len() == 0 {
        initial_scan_state()
    } else {
        scan_step(scan(s.drop_last()), s.last())
    }
}

/// The words of one chunk of input, quoting and escaping resolved: the scan
/// runs to the end, and a non-empty word under construction is emitted as
/// the final word.  Unterminated quotes and a trailing backslash raise no
/// error.
pub open spec fn spec_tokenize(s: Seq<char>) -> Seq<Seq<char>> {
    let st = scan(s);
    if st.current.len() > 0 {
        st.tokens.push(st.current)
    } else {
        st.tokens
    }
}

/// The characters an escaped character adds to the current word.
fn handle_escape(c: char, in_double_quote: bool) -> (r: Vec<char>)
    ensures
        r@ == escape_expansion(c, in_double_quote),
{
    let mut r: Vec<char> = Vec::new();
    if in_double_quote && !(c == '"' || c == '\\' || c == '$') {
        r.push('\\');
        r.push(c);
        proof {
            assert(r@ =~= escape_expansion(c, in_double_quote));
        }
    } else {
        r.push(c);
        proof {
            assert(r@ =~= escape_expansion(c, in_double_quote));
        }
    }
    r
}

/// Tokenizes one chunk, given as its sequence of characters.
fn tokenize_chars(cs: &Vec<char>) -> (tokens: Vec<String>)
    ensures
        tokens.deep_view() == spec_tokenize(cs@),
{
    let mut tokens: Vec<String> = Vec::new();
    let mut current: Vec<char> = Vec::new();
    let mut in_single_quote = false;
    let mut in_double_quote = false;
    let mut escaped = false;
    let mut i: usize = 0;
    while i < cs.len()
        invariant
            i <= cs.len(),
            tokens.deep_view() == scan(cs@.take(i as int)).tokens,
            current@ == scan(cs@.take(i as int)).current,
            in_single_quote == scan(cs@.take(i as int)).in_single_quote,
            in_double_quote == scan(cs@.take(i as int)).in_double_quote,
            escaped == scan(cs@.take(i as int)).escaped,
        decreases cs.len() - i,
    {
        let ghost pre = scan(cs@.take(i as int));
        let c = cs[i];
        proof {
            assert(cs@.take(i + 1 as int).drop_last() =~= cs@.take(i as int));
            assert(cs@.take(i + 1 as int).last() == c);
            assert(scan(cs@.take(i + 1 as int)) == scan_step(pre, c));
        }
        if escaped {
            let mut exp = handle_escape(c, in_double_quote);
            current.append(&mut exp);
            escaped = false;
            proof {
                assert(current@ =~= pre.current + escape_expansion(c, in_double_quote));
            }
        } else if c == '\\' && !in_single_quote {
            escaped = true;
        } else if c == '\'' && !in_double_quote {
            in_single_quote = !in_single_quote;
        } else if c == '"' && !in_single_quote {
            in_double_quote = !in_double_quote;
        } else if is_whitespace_char(c) && !in_single_quote && !in_double_quote {
            if current.len() > 0 {
                let w = chars_to_string(&current);
                tokens.push(w);
                current.clear();
                proof {
                    assert(tokens.deep_view() =~= pre.tokens.push(pre.current));
                }
            }
        } else {
            current.push(c);
        }
        i = i + 1;
    }
    proof {
        assert(cs@.take(cs@.len() as int) =~= cs@);
    }
    if current.len() > 0 {
        let w = chars_to_string(&current);
        tokens.push(w);
        proof {
            assert(tokens.deep_view() =~= scan(cs@).tokens.push(scan(cs@).current));
        }
    }
    tokens
}

/// Tokenizes a raw command string into individual words.
///
/// Single quotes take everything inside them literally; double quotes allow
/// backslash escapes of `"`, `\` and `$`; outside quotes a backslash makes
/// the next character literal; unquoted whitespace separates words.
pub fn tokenize(input: &str) -> (tokens: Vec<String>)
    ensures
        tokens.deep_view() == spec_tokenize(input@),
{
    let cs = str_to_char_vec(input);
    tokenize_chars(&cs)
}

/// A word the call builder treats as a flag: it starts with `-` and is not
/// the lone dash `"-"` (which stands for standard input and stays a
/// positional argument).
pub open spec fn is_flag_token(t: Seq<char>) -> bool {
    t.len() >= 2 && t[0] == '-'
}

/// The flags one flag word contributes: a combined short-flag cluster such
/// as `-la` becomes `-l` and `-a`, one flag per character after the dash;
/// a single short flag or a long `--flag` stays whole.
pub open spec fn flag_expansion(t: Seq<char>) -> Seq<Seq<char>> {
    if t.len() > 2 && t[1] != '-' {
        Seq::new((t.len() - 1) as nat, |i: int| seq!['-', t[i + 1]])
    } else {
        seq![t]
    }
}

/// The flags and the positional arguments of a sequence of words, in the
/// order encountered.
pub open spec fn spec_separate_flags(tokens: Seq<Seq<char>>) -> (Seq<Seq<char>>, Seq<Seq<char>>)
    decreases tokens.len(),
{
    if tokens.len() == 0 {
        (Seq::empty(), Seq::empty())
    } else {
        let fa = spec_separate_flags(tokens.drop_last());
        let t = tokens.last();
        if is_flag_token(t) {
            (fa.0 + flag_expansion(t), fa.1)
        } else {
            (fa.0, fa.1.push(t))
        }
    }
}

/// Separates command words into flags and positional arguments.
pub fn separate_flags_from_args(tokens: Vec<String>) -> (r: (Vec<String>, Vec<String>))
    ensures
        r.0.deep_view() == spec_separate_flags(tokens.deep_view()).0,
        r.1.deep_view() == spec_separate_flags(tokens.deep_view()).1,
{
    let mut flags: Vec<String> = Vec::new();
    let mut args: Vec<String> = Vec::new();
    let mut i: usize = 0;
    while i < tokens.len()
        invariant
            i <= tokens.len(),
            flags.deep_view() == spec_separate_flags(tokens.deep_view().take(i as int)).0,
            args.deep_view() == spec_separate_flags(tokens.deep_view().take(i as int)).1,
        decreases tokens.len() - i,
    {
        let ghost pre = spec_separate_flags(tokens.deep_view().take(i as int));
        let t = &tokens[i];
        let n = t.unicode_len();
        proof {
            assert(tokens.deep_view().take(i + 1 as int).drop_last() =~= tokens.deep_view().take(
                i as int,
            ));
            assert(tokens.deep_view().take(i + 1 as int).last() == t@);
        }
        if n >= 2 && t.get_char(0) == '-' {
            if n > 2 && t.get_char(1) != '-' {
                let mut j: usize = 1;
                while j < n
                    invariant
                        1 <= j <= n,
                        n == t@.len(),
                        n > 2,
                        t@[0] == '-',
                        t@[1] != '-',
                        flags.deep_view() == pre.0 + flag_expansion(t@).take(j - 1),
                    decreases n - j,
                {
                    let mut pair: Vec<char> = Vec::new();
                    pair.push('-');
                    pair.push(t.get_char(j));
                    let f = chars_to_string(&pair);
                    flags.push(f);
                    j = j + 1;
                    proof {
                        let fe = flag_expansion(t@);
                        assert(pair@ =~= seq!['-', t@[j - 1]]);
                        assert(flags.deep_view() =~= (pre.0 + fe.take(j - 2)).push(pair@));
                        assert(fe.take(j - 1) =~= fe.take(j - 2).push(seq!['-', t@[j - 1]]));
                        assert(flags.deep_view() =~= pre.0 + fe.take(j - 1));
                    }
                }
                proof {
                    assert(flag_expansion(t@).take(n - 1 as int) =~= flag_expansion(t@));
                }
            } else {
                let f = t.clone();
                flags.push(f);
                proof {
                    assert(flag_expansion(t@) =~= seq![t@]);
                    assert(flags.deep_view() =~= pre.0 + flag_expansion(t@));
                }
            }
        } else {
            let a = t.clone();
            args.push(a);
            proof {
                assert(!is_flag_token(t@));
                assert(args.deep_view() =~= pre.1.push(t@));
            }
        }
        i = i + 1;
    }
    proof {
        assert(tokens.deep_view().take(tokens.deep_view().len() as int) =~= tokens.deep_view());
    }
    (flags, args)
}

/// The pieces of a line between `;` separators, in order, empties kept.
/// The split is textual: it does not respect quoting, so a `;` inside a
/// quoted region still ends a chunk (a documented limitation, kept for
/// compatibility).
pub open spec fn spec_split_on_semicolons(s: Seq<char>) -> Seq<Seq<char>>
    decreases s.len(),
{
    if s.len() == 0 {
        seq![Seq::empty()]
    } else if s.last() == ';' {
        spec_split_on_semicolons(s.drop_last()).push(Seq::empty())
    } else {
        let r = spec_split_on_semicolons(s.drop_last());
        r.update(r.len() - 1, r.last().push(s.last()))
    }
}

/// A split always yields at least one chunk.
proof fn lemma_split_nonempty(s: Seq<char>)
    ensures
        spec_split_on_semicolons(s).len() >= 1,
    decreases s.len(),
{
    if s.len() > 0 {
        lemma_split_nonempty(s.drop_last());
    }
}

/// The sequence without its leading whitespace.
pub open spec fn trim_start(s: Seq<char>) -> Seq<char>
    decreases s.len(),
{
    if s.len() > 0 && is_shell_whitespace(s.first()) {
        trim_start(s.drop_first())
    } else {
        s
    }
}

/// The sequence without its trailing whitespace.
pub open spec fn trim_end(s: Seq<char>) -> Seq<char>
    decreases s.len(),
{
    if s.len() > 0 && is_shell_whitespace(s.last()) {
        trim_end(s.drop_last())
    } else {
        s
    }
}

/// The sequence without leading and trailing whitespace.
pub open spec fn spec_trim(s: Seq<char>) -> Seq<char> {
    trim_end(trim_start(s))
}

/// The characters of one chunk without leading and trailing whitespace.
fn trim_chars(cs: &Vec<char>) -> (r: Vec<char>)
    ensures
        r@ == spec_trim(cs@),
{
    let mut start: usize = 0;
    proof {
        assert(cs@.skip(0) =~= cs@);
    }
    while start < cs.len() && is_whitespace_char(cs[start])
        invariant
            start <= cs.len(),
            trim_start(cs@) == trim_start(cs@.skip(start as int)),
        decreases cs.len() - start,
    {
        proof {
            assert(cs@.skip(start as int).first() == cs@[start as int]);
            assert(cs@.skip(start as int).drop_first() =~= cs@.skip(start + 1 as int));
        }
        start = start + 1;
    }
    proof {
        if start < cs.len() {
            assert(cs@.skip(start as int).first() == cs@[start as int]);
        }
        assert(trim_start(cs@) == cs@.skip(start as int));
    }
    let ghost u = cs@.skip(start as int);
    let mut end: usize = cs.len();
    proof {
        assert(u.take(end - start) =~= u);
    }
    while end > start && is_whitespace_char(cs[end - 1])
        invariant
            start <= end <= cs.len(),
            u == cs@.skip(start as int),
            trim_end(u) == trim_end(u.take(end - start)),
        decreases end,
    {
        proof {
            let v = u.take(end - start);
            assert(v.last() == cs@[end - 1]);
            assert(v.drop_last() =~= u.take(end - 1 - start));
        }
        end = end - 1;
    }
    proof {
        if end > start {
            assert(u.take(end - start).last() == cs@[end - 1]);
        }
        assert(trim_end(u) == u.take(end - start));
    }
    let mut r: Vec<char> = Vec::new();
    let mut i: usize = start;
    while i < end
        invariant
            start <= i <= end <= cs.len(),
            r@ == cs@.subrange(start as int, i as int),
        decreases end - i,
    {
        r.push(cs[i]);
        i = i + 1;
        proof {
            assert(r@ =~= cs@.subrange(start as int, i as int));
        }
    }
    proof {
        assert(cs@.subrange(start as int, end as int) =~= u.take(end - start));
    }
    r
}

/// Represents a parsed command call with its name, flags, and arguments.
///
/// A command call is generated from a single command segment (between
/// semicolons); flags are separated from positional arguments to allow for
/// easier command processing.
#[derive(Debug, Clone, PartialEq, Eq)]
pub struct CommandCall {
    /// The name of the command (e.g. `ls`, `echo`), always lowercase.
    pub name: String,
    /// Individual flags found in the command (e.g. `-l`, `-a`); short
    /// flags combined as `-la` are expanded into `-l`, `-a`.
    pub flags: Vec<String>,
    /// Positional arguments for the command (e.g. file paths, text).
    pub args: Vec<String>,
}

/// The mathematical value of a [`CommandCall`].
#[verifier::ext_equal]
pub struct CommandCallView {
    pub name: Seq<char>,
    pub flags: Seq<Seq<char>>,
    pub args: Seq<Seq<char>>,
}

impl View for CommandCall {
    type V = CommandCallView;

    open spec fn view(&self) -> CommandCallView {
        CommandCallView {
            name: self.name@,
            flags: self.flags.deep_view(),
            args: self.args.deep_view(),
        }
    }
}

impl DeepView for CommandCall {
    type V = CommandCallView;

    open spec fn deep_view(&self) -> CommandCallView {
        self.view()
    }
}

/// The call one chunk yields: none when the trimmed chunk is empty or
/// tokenizes to no words; otherwise the lowercased first word becomes the
/// name and the remaining words are classified into flags and arguments.
pub open spec fn spec_chunk_call(chunk: Seq<char>) -> Option<CommandCallView> {
    let t = spec_trim(chunk);
    if t.len() == 0 {
        None
    } else {
        let toks = spec_tokenize(t);
        if toks.len() == 0 {
            None
        } else {
            let fa = spec_separate_flags(toks.drop_first());
            Some(CommandCallView { name: lower_of(toks.first()), flags: fa.0, args: fa.1 })
        }
    }
}

/// The calls of a sequence of chunks, in chunk order; chunks that yield no
/// call are dropped.
pub open spec fn spec_calls_of(chunks: Seq<Seq<char>>) -> Seq<CommandCallView>
    decreases chunks.len(),
{
    if chunks.len() == 0 {
        Seq::empty()
    } else {
        let rest = spec_calls_of(chunks.drop_last());
        match spec_chunk_call(chunks.last()) {
            Some(c) => rest.push(c),
            None => rest,
        }
    }
}

/// The command calls of one raw input line.
pub open spec fn spec_parse_line(s: Seq<char>) -> Seq<CommandCallView> {
    spec_calls_of(spec_split_on_semicolons(s))
}

/// Parses a line of input into a sequence of command calls.
///
/// The line is split on `;` to support command chaining; each chunk is
/// trimmed, tokenized with support for quotes and escapes, and its words
/// are separated into a name, flags and positional arguments.  Malformed
/// or empty input never fails: it degrades to fewer calls.
pub fn parse_line(input: &str) -> (calls: Vec<CommandCall>)
    ensures
        calls.deep_view() == spec_parse_line(input@),
{
    let cs = str_to_char_vec(input);
    let mut chunks: Vec<Vec<char>> = Vec::new();
    let mut cur: Vec<char> = Vec::new();
    let mut i: usize = 0;
    while i < cs.len()
        invariant
            i <= cs.len(),
            chunks.deep_view().push(cur@) == spec_split_on_semicolons(cs@.take(i as int)),
        decreases cs.len() - i,
    {
        let ghost pre = spec_split_on_semicolons(cs@.take(i as int));
        let c = cs[i];
        proof {
            assert(cs@.take(i + 1 as int).drop_last() =~= cs@.take(i as int));
            assert(cs@.take(i + 1 as int).last() == c);
        }
        if c == ';' {
            chunks.push(cur);
            cur = Vec::new();
            proof {
                assert(chunks.deep_view().push(cur@) =~~= pre.push(Seq::empty()));
            }
        } else {
            cur.push(c);
            proof {
                assert(pre.len() >= 1) by {
                    lemma_split_nonempty(cs@.take(i as int));
                }
                assert(chunks.deep_view().push(cur@) =~= pre.update(
                    pre.len() - 1,
                    pre.last().push(c),
                ));
            }
        }
        i = i + 1;
    }
    chunks.push(cur);
    proof {
        assert(cs@.take(cs@.len() as int) =~= cs@);
        assert(chunks.deep_view() =~~= spec_split_on_semicolons(cs@));
    }
    let mut calls: Vec<CommandCall> = Vec::new();
    let mut k: usize = 0;
    while k < chunks.len()
        invariant
            k <= chunks.len(),
            chunks.deep_view() == spec_split_on_semicolons(cs@),
            calls.deep_view() == spec_calls_of(chunks.deep_view().take(k as int)),
        decreases chunks.len() - k,
    {
        let ghost pre = spec_calls_of(chunks.deep_view().take(k as int));
        proof {
            assert(chunks.deep_view().take(k + 1 as int).drop_last() =~= chunks.deep_view().take(
                k as int,
            ));
            assert(chunks.deep_view().take(k + 1 as int).last() == chunks@[k as int]@);
        }
        let trimmed = trim_chars(&chunks[k]);
        if trimmed.len() > 0 {
            let mut tokens = tokenize_chars(&trimmed);
            if tokens.len() > 0 {
                let first = tokens.remove(0);
                let name = lowercase(first.as_str());
                proof {
                    assert(tokens.deep_view() =~= spec_tokenize(trimmed@).drop_first());
                }
                let fa = separate_flags_from_args(tokens);
                let call = CommandCall { name, flags: fa.0, args: fa.1 };
                calls.push(call);
                proof {
                    assert(call@ =~= spec_chunk_call(chunks@[k as int]@).unwrap());
                    assert(calls.deep_view() =~= pre.push(
                        spec_chunk_call(chunks@[k as int]@).unwrap(),
                    ));
                }
            }
        }
        k = k + 1;
    }
    proof {
        assert(chunks.deep_view().take(chunks.deep_view().len() as int) =~= chunks.deep_view());
    }
    calls
}

/// Text with no quote and no backslash characters, on which the tokenizer
/// has nothing to resolve.
pub open spec fn plain_text(s: Seq<char>) -> bool {
    forall|i: int| 0 <= i < s.len() ==> s[i] != '\\' && s[i] != '\'' && s[i] != '"'
}

/// One step of splitting on runs of whitespace: whitespace ends the field
/// under construction, every other character extends it; empty fields are
/// never kept.
pub open spec fn ws_step(acc: (Seq<Seq<char>>, Seq<char>), c: char) -> (Seq<Seq<char>>, Seq<char>) {
    if is_shell_whitespace(c) {
        if acc.1.len() > 0 {
            (acc.0.push(acc.1), Seq::empty())
        } else {
            acc
        }
    } else {
        (acc.0, acc.1.push(c))
    }
}

/// The fields emitted and the field under construction after scanning a
/// whole sequence for whitespace splitting.
pub open spec fn ws_scan(s: Seq<char>) -> (Seq<Seq<char>>, Seq<char>)
    decreases s.len(),
{
    if s.len() == 0 {
        (Seq::empty(), Seq::empty())
    } else {
        ws_step(ws_scan(s.drop_last()), s.last())
    }
}

/// Splitting on runs of whitespace, discarding empty fields.
pub open spec fn spec_split_whitespace(s: Seq<char>) -> Seq<Seq<char>> {
    let wc = ws_scan(s);
    if wc.1.len() > 0 {
        wc.0.push(wc.1)
    } else {
        wc.0
    }
}

proof fn lemma_scan_plain(s: Seq<char>)
    requires
        plain_text(s),
    ensures
        scan(s).tokens == ws_scan(s).0,
        scan(s).current == ws_scan(s).1,
        !scan(s).in_single_quote,
        !scan(s).in_double_quote,
        !scan(s).escaped,
    decreases s.len(),
{
    if s.len() > 0 {
        assert(plain_text(s.drop_last())) by {
            assert(forall|i: int|
                0 <= i < s.len() - 1 ==> s.drop_last()[i] == s[i]);
        }
        lemma_scan_plain(s.drop_last());
    }
}

/// Law: on input with no quote and no backslash characters, the tokenizer
/// is exactly splitting on runs of whitespace with empty fields discarded.
pub proof fn lemma_tokenize_plain_is_whitespace_split(s: Seq<char>)
    requires
        plain_text(s),
    ensures
        spec_tokenize(s) == spec_split_whitespace(s),
{
    lemma_scan_plain(s);
}

proof fn lemma_scan_words_nonempty(s: Seq<char>)
    ensures
        forall|i: int| 0 <= i < scan(s).tokens.len() ==> (#[trigger] scan(s).tokens[i]).len() > 0,
    decreases s.len(),
{
    if s.len() > 0 {
        lemma_scan_words_nonempty(s.drop_last());
        let st = scan(s.drop_last());
        let c = s.last();
        let pushes = !st.escaped && c != '\\' && !(c == '\'' && !st.in_double_quote) && !(c == '"'
            && !st.in_single_quote) && is_shell_whitespace(c) && !st.in_single_quote
            && !st.in_double_quote && st.current.len() > 0;
        assert forall|i: int| 0 <= i < scan(s).tokens.len() implies (#[trigger] scan(
            s,
        ).tokens[i]).len() > 0 by {
            if pushes {
                assert(scan(s).tokens == st.tokens.push(st.current));
                if i < st.tokens.len() {
                    assert(scan(s).tokens[i] == st.tokens[i]);
                } else {
                    assert(scan(s).tokens[i] == st.current);
                }
            } else {
                assert(scan(s).tokens == st.tokens);
            }
        }
    }
}

/// Law: the tokenizer emits no empty words.
pub proof fn lemma_tokenize_words_nonempty(s: Seq<char>)
    ensures
        forall|i: int|
            0 <= i < spec_tokenize(s).len() ==> (#[trigger] spec_tokenize(s)[i]).len() > 0,
{
    lemma_scan_words_nonempty(s);
}

/// A word re-quoted by backslash-escaping every one of its characters: the
/// form under which any word survives tokenization unchanged.
pub open spec fn escape_every_char(w: Seq<char>) -> Seq<char>
    decreases w.len(),
{
    if w.len() == 0 {
        Seq::empty()
    } else {
        escape_every_char(w.drop_last()) + seq!['\\', w.last()]
    }
}

proof fn lemma_scan_escaped(w: Seq<char>)
    ensures
        scan(escape_every_char(w)) == (ScanState {
            tokens: Seq::empty(),
            current: w,
            in_single_quote: false,
            in_double_quote: false,
            escaped: false,
        }),
    decreases w.len(),
{
    if w.len() == 0 {
        assert(scan(escape_every_char(w)) =~= (ScanState {
            tokens: Seq::empty(),
            current: w,
            in_single_quote: false,
            in_double_quote: false,
            escaped: false,
        }));
    } else {
        lemma_scan_escaped(w.drop_last());
        let p = escape_every_char(w.drop_last());
        let e = escape_every_char(w);
        assert(e.drop_last() =~= p.push('\\'));
        assert(e.last() == w.last());
        assert(p.push('\\').drop_last() =~= p);
        let st1 = scan_step(scan(p), '\\');
        assert(scan(e.drop_last()) == st1);
        assert(st1.escaped);
        assert(scan(e) == scan_step(st1, w.last()));
        assert(scan(e).current =~= w);
        assert(scan(e) =~= (ScanState {
            tokens: Seq::empty(),
            current: w,
            in_single_quote: false,
            in_double_quote: false,
            escaped: false,
        }));
    }
}

/// Law: tokenization is normalizing, not lossless, but any nonempty word,
/// re-quoted by escaping each of its characters, tokenizes back to exactly
/// that word.  Together with [`lemma_tokenize_words_nonempty`] this holds
/// of every word the tokenizer emits.
pub proof fn lemma_escaped_word_round_trips(w: Seq<char>)
    requires
        w.len() > 0,
    ensures
        spec_tokenize(escape_every_char(w)) == seq![w],
{
    lemma_scan_escaped(w);
    assert(Seq::<Seq<char>>::empty().push(w) =~= seq![w]);
}

proof fn lemma_flags_shape(tokens: Seq<Seq<char>>)
    ensures
        forall|i: int|
            0 <= i < spec_separate_flags(tokens).0.len() ==> (#[trigger] spec_separate_flags(
                tokens,
            ).0[i]).len() >= 2 && spec_separate_flags(tokens).0[i][0] == '-',
    decreases tokens.len(),
{
    if tokens.len() > 0 {
        lemma_flags_shape(tokens.drop_last());
        let pre = spec_separate_flags(tokens.drop_last()).0;
        let cur = spec_separate_flags(tokens).0;
        let t = tokens.last();
        assert forall|i: int| 0 <= i < cur.len() implies (#[trigger] cur[i]).len() >= 2
            && cur[i][0] == '-' by {
            if is_flag_token(t) {
                assert(cur == pre + flag_expansion(t));
                if i < pre.len() {
                    assert(cur[i] == pre[i]);
                } else {
                    assert(cur[i] == flag_expansion(t)[i - pre.len()]);
                    if t.len() > 2 && t[1] != '-' {
                        assert(flag_expansion(t)[i - pre.len()] == seq!['-', t[i - pre.len() + 1]]);
                    } else {
                        assert(flag_expansion(t)[i - pre.len()] == t);
                    }
                }
            } else {
                assert(cur == pre);
            }
        }
    }
}

/// Law: a token equal to the lone dash `"-"` always lands among the
/// positional arguments and never among the flags: every flag has at least
/// two characters, and exactly the non-flag tokens are kept, in order, as
/// the arguments.
pub proof fn lemma_dash_is_argument(tokens: Seq<Seq<char>>)
    ensures
        !spec_separate_flags(tokens).0.contains(seq!['-']),
        spec_separate_flags(tokens).1 == tokens.filter(|t: Seq<char>| !is_flag_token(t)),
    decreases tokens.len(),
{
    lemma_flags_shape(tokens);
    assert(seq!['-'].len() == 1);
    if tokens.len() > 0 {
        lemma_dash_is_argument(tokens.drop_last());
        assert(tokens.drop_last() =~= tokens.take(tokens.len() - 1));
        reveal(Seq::filter);
    }
}

} // verus!
