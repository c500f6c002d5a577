//! The decisions of the interactive line editor: what each key does to the
//! line being typed, what is echoed, and how tab completion extends the
//! line. The terminal itself is driven by the caller, which feeds the bytes
//! it reads and writes the bytes it is handed.
use vstd::prelude::*;
use vstd::utf8::{is_char_boundary, valid_utf8};
use crate::order::is_prefix;
use crate::path::{
    all_bytes, bytes_of, is_common_prefix_boundary, lemma_bytes_of_concat,
    lemma_common_prefix_boundary_unique, longest_common_prefix,
};
use crate::text::join_seqs;
use crate::tokenizer::strings_view;

verus! {

/// Calls `std::str::from_utf8` and tells whether it accepted the bytes: it
/// accepts exactly the well-formed UTF-8 sequences.
#[verifier::external_body]
pub(crate) fn is_valid_utf8(b: &[u8]) -> (r: bool)
    ensures
        r == valid_utf8(b@),
{
    std::str::from_utf8(b).is_ok()
}

/// Where the editor is in an escape sequence from the terminal.
#[derive(Debug, Clone, Copy, PartialEq, Eq, Structural)]
pub enum EscapeState {
    /// Ordinary input.
    Normal,
    /// An escape byte was read.
    AfterEscape,
    /// Inside a control sequence (`ESC [` or `ESC O`), until its final byte.
    InSequence,
}

/// The editor's state: the prompt, the bytes typed so far, whether the
/// last key was a tab that found several candidates, whether the key
/// before the current tab was such a tab, and the escape state.
pub struct EditorModel {
    pub prompt: Seq<u8>,
    pub buffer: Seq<u8>,
    pub last_was_tab: bool,
    pub prev_was_tab: bool,
    pub escape: EscapeState,
}

/// What the caller is to do after a key.
pub enum ActionModel {
    Output(Seq<u8>),
    Complete((bool, Seq<u8>, Seq<u8>)),
    Done(Seq<u8>),
    EndOfInput,
}

/// A completion to look up: command names (from the builtins and the
/// search path) when `commands` is set, otherwise the entries of the
/// directory `dir` (relative to the working directory; empty for the
/// working directory itself); only the names that start with `prefix`.
pub struct CompletionRequest {
    pub commands: bool,
    pub dir: Vec<u8>,
    pub prefix: Vec<u8>,
}

impl View for CompletionRequest {
    type V = (bool, Seq<u8>, Seq<u8>);

    open spec fn view(&self) -> (bool, Seq<u8>, Seq<u8>) {
        (self.commands, self.dir@, self.prefix@)
    }
}

/// What the caller is to do after a key.
pub enum EditAction {
    /// Write these bytes to the terminal and read the next key.
    Output(Vec<u8>),
    /// Look up the candidates for this completion and hand them to
    /// `LineEditor::complete`.
    Complete(CompletionRequest),
    /// Write these bytes; the line is finished and is the editor's buffer.
    Done(Vec<u8>),
    /// End of input on an empty line.
    EndOfInput,
}

impl View for EditAction {
    type V = ActionModel;

    open spec fn view(&self) -> ActionModel {
        match self {
            EditAction::Output(b) => ActionModel::Output(b@),
            EditAction::Complete(r) => ActionModel::Complete(r@),
            EditAction::Done(b) => ActionModel::Done(b@),
            EditAction::EndOfInput => ActionModel::EndOfInput,
        }
    }
}

/// The position of the last `c` in `b`; -1 when there is none.
pub open spec fn last_index_of(b: Seq<u8>, c: u8) -> int
    decreases b.len(),
{
    if b.len() == 0 {
        -1
    } else if b.last() == c {
        b.len() - 1
    } else {
        last_index_of(b.drop_last(), c)
    }
}

/// The completion that a tab asks for on the line `b`: the word after the
/// last space is split after its last `/` into a directory and a prefix;
/// without a `/`, the first word of the line completes to a command name
/// and later words to file names.
pub open spec fn request_spec(b: Seq<u8>) -> (bool, Seq<u8>, Seq<u8>) {
    let ss = last_index_of(b, 0x20u8) + 1;
    let seg = b.subrange(ss, b.len() as int);
    let sl = last_index_of(seg, 0x2fu8);
    if sl >= 0 {
        (false, seg.subrange(0, sl + 1), seg.subrange(sl + 1, seg.len() as int))
    } else {
        (ss == 0, Seq::empty(), seg)
    }
}

/// What a key does: the new state and the caller's next step.
pub open spec fn feed_spec(m: EditorModel, byte: u8) -> (EditorModel, ActionModel) {
    match m.escape {
        EscapeState::AfterEscape => (
            EditorModel {
                escape: if byte == 0x5bu8 || byte == 0x4fu8 {
                    EscapeState::InSequence
                } else {
                    EscapeState::Normal
                },
                ..m
            },
            ActionModel::Output(Seq::empty()),
        ),
        EscapeState::InSequence => (
            EditorModel {
                escape: if 0x40u8 <= byte && byte <= 0x7eu8 {
                    EscapeState::Normal
                } else {
                    EscapeState::InSequence
                },
                ..m
            },
            ActionModel::Output(Seq::empty()),
        ),
        EscapeState::Normal => {
            let m1 = EditorModel { last_was_tab: false, ..m };
            if 0x20u8 <= byte && byte <= 0x7eu8 {
                (EditorModel { buffer: m.buffer.push(byte), ..m1 }, ActionModel::Output(seq![byte]))
            } else if byte == 0x09u8 {
                if valid_utf8(m.buffer) {
                    (
                        EditorModel { prev_was_tab: m.last_was_tab, ..m1 },
                        ActionModel::Complete(request_spec(m.buffer)),
                    )
                } else {
                    (m1, ActionModel::Output(Seq::empty()))
                }
            } else if byte == 0x0du8 || byte == 0x0au8 {
                (EditorModel { buffer: m.buffer.push(0x0au8), ..m1 }, ActionModel::Done(seq![0x0au8]))
            } else if byte == 0x7fu8 || byte == 0x08u8 {
                if m.buffer.len() > 0 {
                    (
                        EditorModel { buffer: m.buffer.drop_last(), ..m1 },
                        ActionModel::Output(seq![0x08u8, 0x20u8, 0x08u8]),
                    )
                } else {
                    (m1, ActionModel::Output(Seq::empty()))
                }
            } else if byte == 0x04u8 {
                if m.buffer.len() == 0 {
                    (m1, ActionModel::EndOfInput)
                } else {
                    (m1, ActionModel::Output(Seq::empty()))
                }
            } else if byte == 0x1bu8 {
                (EditorModel { escape: EscapeState::AfterEscape, ..m1 }, ActionModel::Output(Seq::empty()))
            } else {
                (m1, ActionModel::Output(Seq::empty()))
            }
        },
    }
}

/// The names of a list of completion candidates.
pub open spec fn candidate_names(ms: Seq<(Seq<char>, bool)>) -> Seq<Seq<char>> {
    ms.map_values(|m: (Seq<char>, bool)| m.0)
}

/// The length of the longest common prefix of byte strings that ends
/// between two characters of the first one.
pub open spec fn common_prefix(bs: Seq<Seq<u8>>) -> int {
    choose|r: int| is_common_prefix_boundary(bs, r)
}

/// The candidates for which completion is defined: the candidate that
/// extends the line, or the first of several candidates that extend it to
/// their common prefix, must have a character boundary where the typed
/// prefix ends.
pub open spec fn completion_defined(m: EditorModel, ms: Seq<(Seq<char>, bool)>) -> bool {
    let plen = request_spec(m.buffer).2.len() as int;
    let bs = all_bytes(candidate_names(ms));
    &&& ms.len() == 1 ==> is_char_boundary(bs[0], plen)
    &&& ms.len() >= 2 ==> (common_prefix(bs) > plen ==> is_char_boundary(bs[0], plen))
}

/// What completing with the candidates `ms` does: the new state and the
/// bytes to write. No candidate rings the bell; one candidate completes
/// the word and adds `/` for a directory or a space otherwise; several
/// candidates extend the word to their common prefix, or, when that adds
/// nothing, ring the bell on the first tab and list them on the second.
pub open spec fn complete_spec(m: EditorModel, ms: Seq<(Seq<char>, bool)>) -> (EditorModel, Seq<u8>) {
    let plen = request_spec(m.buffer).2.len() as int;
    let bs = all_bytes(candidate_names(ms));
    if ms.len() == 0 {
        (m, seq![0x07u8])
    } else if ms.len() == 1 {
        let suffix = bs[0].subrange(plen, bs[0].len() as int);
        let trailer: u8 = if ms[0].1 {
            0x2fu8
        } else {
            0x20u8
        };
        (EditorModel { buffer: m.buffer + suffix.push(trailer), ..m }, suffix.push(trailer))
    } else {
        let lcp = common_prefix(bs);
        if lcp > plen {
            let suffix = bs[0].subrange(plen, lcp);
            (EditorModel { buffer: m.buffer + suffix, ..m }, suffix)
        } else if m.prev_was_tab {
            (
                m,
                seq![0x0au8] + join_seqs(bs, seq![0x20u8, 0x20u8]) + seq![0x0au8] + m.prompt
                    + m.buffer,
            )
        } else {
            (EditorModel { last_was_tab: true, ..m }, seq![0x07u8])
        }
    }
}

proof fn lemma_common_prefix_unique(bs: Seq<Seq<u8>>, r: int)
    requires
        is_common_prefix_boundary(bs, r),
    ensures
        common_prefix(bs) == r,
{
    let c = common_prefix(bs);
    assert(is_common_prefix_boundary(bs, c));
    lemma_common_prefix_boundary_unique(bs, r, c);
}

/// The interactive line editor.
pub struct LineEditor {
    prompt: Vec<u8>,
    buffer: Vec<u8>,
    last_was_tab: bool,
    prev_was_tab: bool,
    escape: EscapeState,
}

impl View for LineEditor {
    type V = EditorModel;

    closed spec fn view(&self) -> EditorModel {
        EditorModel {
            prompt: self.prompt@,
            buffer: self.buffer@,
            last_was_tab: self.last_was_tab,
            prev_was_tab: self.prev_was_tab,
            escape: self.escape,
        }
    }
}

/// The position of the last `c` in `b` after `from`, counted from `from`.
fn find_last(b: &[u8], from: usize, c: u8) -> (r: Option<usize>)
    requires
        from <= b@.len(),
    ensures
        match r {
            Some(i) => i == last_index_of(b@.subrange(from as int, b@.len() as int), c),
            None => last_index_of(b@.subrange(from as int, b@.len() as int), c) == -1,
        },
{
    let ghost seg = b@.subrange(from as int, b@.len() as int);
    let mut i: usize = b.len();
    assert(seg.subrange(0, seg.len() as int) =~= seg);
    while i > from
        invariant
            from <= i <= b@.len(),
            seg == b@.subrange(from as int, b@.len() as int),
            last_index_of(seg, c) == last_index_of(seg.subrange(0, i - from), c),
        decreases i,
    {
        let ghost pre = seg.subrange(0, i - from);
        assert(pre.drop_last() =~= seg.subrange(0, i - 1 - from));
        assert(pre.last() == b@[i - 1]);
        if b[i - 1] == c {
            return Some(i - 1 - from);
        }
        i = i - 1;
    }
    assert(seg.subrange(0, 0) =~= Seq::<u8>::empty());
    None
}

impl LineEditor {
    /// An editor with an empty line that shows `prompt`.
    pub fn new(prompt: &str) -> (e: LineEditor)
        ensures
            e@.prompt == bytes_of(prompt@),
            e@.buffer == Seq::<u8>::empty(),
            !e@.last_was_tab,
            !e@.prev_was_tab,
            e@.escape == EscapeState::Normal,
    {
        let p = prompt.as_bytes();
        let mut prompt_bytes: Vec<u8> = Vec::new();
        let mut i: usize = 0;
        while i < p.len()
            invariant
                i <= p@.len(),
                prompt_bytes@ == p@.subrange(0, i as int),
            decreases p.len() - i,
        {
            prompt_bytes.push(p[i]);
            i = i + 1;
            assert(prompt_bytes@ =~= p@.subrange(0, i as int));
        }
        assert(p@.subrange(0, p@.len() as int) =~= p@);
        let e = LineEditor {
            prompt: prompt_bytes,
            buffer: Vec::new(),
            last_was_tab: false,
            prev_was_tab: false,
            escape: EscapeState::Normal,
        };
        assert(e@.buffer =~= Seq::<u8>::empty());
        e
    }

    /// The bytes typed so far.
    pub fn buffer(&self) -> (b: &Vec<u8>)
        ensures
            b@ == self@.buffer,
    {
        &self.buffer
    }

    /// Where the editor is in an escape sequence.
    pub fn escape_state(&self) -> (e: EscapeState)
        ensures
            e == self@.escape,
    {
        self.escape
    }

    /// Handles one byte read from the terminal.
    pub fn feed(&mut self, byte: u8) -> (a: EditAction)
        ensures
            (final(self)@, a@) == feed_spec(old(self)@, byte),
    {
        let ghost m = self@;
        match self.escape {
            EscapeState::AfterEscape => {
                if byte == 0x5b || byte == 0x4f {
                    self.escape = EscapeState::InSequence;
                } else {
                    self.escape = EscapeState::Normal;
                }
                return EditAction::Output(Vec::new());
            },
            EscapeState::InSequence => {
                if 0x40 <= byte && byte <= 0x7e {
                    self.escape = EscapeState::Normal;
                }
                return EditAction::Output(Vec::new());
            },
            EscapeState::Normal => {},
        }
        let prev = self.last_was_tab;
        self.last_was_tab = false;
        if 0x20 <= byte && byte <= 0x7e {
            self.buffer.push(byte);
            let mut out: Vec<u8> = Vec::new();
            out.push(byte);
            assert(out@ =~= seq![byte]);
            EditAction::Output(out)
        } else if byte == 0x09 {
            if is_valid_utf8(self.buffer.as_slice()) {
                self.prev_was_tab = prev;
                EditAction::Complete(self.request())
            } else {
                EditAction::Output(Vec::new())
            }
        } else if byte == 0x0d || byte == 0x0a {
            self.buffer.push(0x0a);
            let mut out: Vec<u8> = Vec::new();
            out.push(0x0a);
            assert(out@ =~= seq![0x0au8]);
            EditAction::Done(out)
        } else if byte == 0x7f || byte == 0x08 {
            if self.buffer.len() > 0 {
                self.buffer.pop();
                let mut out: Vec<u8> = Vec::new();
                out.push(0x08);
                out.push(0x20);
                out.push(0x08);
                assert(out@ =~= seq![0x08u8, 0x20u8, 0x08u8]);
                EditAction::Output(out)
            } else {
                EditAction::Output(Vec::new())
            }
        } else if byte == 0x04 {
            if self.buffer.len() == 0 {
                EditAction::EndOfInput
            } else {
                EditAction::Output(Vec::new())
            }
        } else if byte == 0x1b {
            self.escape = EscapeState::AfterEscape;
            EditAction::Output(Vec::new())
        } else {
            EditAction::Output(Vec::new())
        }
    }

    /// The completion that a tab asks for on the current line.
    fn request(&self) -> (r: CompletionRequest)
        ensures
            r@ == request_spec(self@.buffer),
    {
        let b = self.buffer.as_slice();
        let n = b.len();
        assert(b@.len() == n);
        assert(b@.subrange(0, b@.len() as int) =~= b@);
        proof {
            lemma_last_index_bounds(b@.subrange(0, b@.len() as int), 0x20u8);
        }
        let ss: usize = match find_last(b, 0, 0x20) {
            Some(i) => {
                assert(i < b@.len());
                i + 1
            },
            None => 0,
        };
        let ghost seg = b@.subrange(ss as int, b@.len() as int);
        proof {
            lemma_last_index_bounds(seg, 0x2fu8);
        }
        let sl = find_last(b, ss, 0x2f);
        let split: usize = match sl {
            Some(i) => {
                assert(i < seg.len());
                ss + i + 1
            },
            None => ss,
        };
        let mut dir: Vec<u8> = Vec::new();
        let mut prefix: Vec<u8> = Vec::new();
        let mut i: usize = ss;
        while i < split
            invariant
                ss <= i <= split <= b@.len(),
                dir@ == b@.subrange(ss as int, i as int),
            decreases split - i,
        {
            dir.push(b[i]);
            i = i + 1;
            assert(dir@ =~= b@.subrange(ss as int, i as int));
        }
        let mut j: usize = split;
        while j < b.len()
            invariant
                split <= j <= b@.len(),
                prefix@ == b@.subrange(split as int, j as int),
            decreases b.len() - j,
        {
            prefix.push(b[j]);
            j = j + 1;
            assert(prefix@ =~= b@.subrange(split as int, j as int));
        }
        match sl {
            Some(i) => {
                assert(dir@ =~= seg.subrange(0, i + 1));
                assert(prefix@ =~= seg.subrange(i + 1, seg.len() as int));
            },
            None => {
                assert(dir@ =~= Seq::<u8>::empty());
                assert(prefix@ =~= seg);
            },
        }
        CompletionRequest { commands: sl.is_none() && ss == 0, dir, prefix }
    }

    /// Completes the current word with the candidates that the caller found
    /// for the last completion request; returns the bytes to write.
    pub fn complete(&mut self, matches: &[(String, bool)]) -> (out: Vec<u8>)
        requires
            completion_defined(old(self)@, matches@.map_values(|m: (String, bool)| (m.0@, m.1))),
        ensures
            (final(self)@, out@) == complete_spec(
                old(self)@,
                matches@.map_values(|m: (String, bool)| (m.0@, m.1)),
            ),
    {
        let ghost ms = matches@.map_values(|m: (String, bool)| (m.0@, m.1));
        let ghost m = self@;
        let ghost bs = all_bytes(candidate_names(ms));
        let req = self.request();
        let plen = req.prefix.len();
        let mut out: Vec<u8> = Vec::new();
        if matches.len() == 0 {
            out.push(0x07);
            assert(out@ =~= seq![0x07u8]);
            return out;
        }
        if matches.len() == 1 {
            let mb = matches[0].0.as_str().as_bytes();
            assert(mb@ == bs[0]);
            proof {
                vstd::utf8::encode_utf8_valid_utf8(ms[0].0);
            }
            assert(plen <= mb@.len());
            let mut i: usize = plen;
            while i < mb.len()
                invariant
                    plen <= i <= mb@.len(),
                    out@ == mb@.subrange(plen as int, i as int),
                decreases mb.len() - i,
            {
                out.push(mb[i]);
                i = i + 1;
                assert(out@ =~= mb@.subrange(plen as int, i as int));
            }
            let trailer: u8 = if matches[0].1 {
                0x2f
            } else {
                0x20
            };
            out.push(trailer);
            let mut k: usize = 0;
            let ghost b0 = self.buffer@;
            while k < out.len()
                invariant
                    k <= out@.len(),
                    self.buffer@ == b0 + out@.subrange(0, k as int),
                    self.prompt@ == m.prompt,
                    self.last_was_tab == m.last_was_tab,
                    self.prev_was_tab == m.prev_was_tab,
                    self.escape == m.escape,
                decreases out.len() - k,
            {
                self.buffer.push(out[k]);
                k = k + 1;
                assert(self.buffer@ =~= b0 + out@.subrange(0, k as int));
            }
            assert(out@.subrange(0, out@.len() as int) =~= out@);
            return out;
        }
        let mut names: Vec<String> = Vec::new();
        let mut n: usize = 0;
        while n < matches.len()
            invariant
                n <= matches@.len(),
                ms == matches@.map_values(|m: (String, bool)| (m.0@, m.1)),
                strings_view(names@) == candidate_names(ms).subrange(0, n as int),
            decreases matches.len() - n,
        {
            assert(candidate_names(ms)[n as int] == matches@[n as int].0@);
            let c = matches[n].0.clone();
            assert(c@ == matches@[n as int].0@);
            let ghost before = strings_view(names@);
            names.push(c);
            assert(strings_view(names@) =~= before.push(matches@[n as int].0@));
            n = n + 1;
            assert(strings_view(names@) =~= candidate_names(ms).subrange(0, n as int));
        }
        assert(strings_view(names@) =~= candidate_names(ms));
        let lcp = longest_common_prefix(names.as_slice());
        proof {
            lemma_common_prefix_unique(bs, lcp as int);
        }
        if lcp > plen {
            let b0 = names[0].as_str().as_bytes();
            assert(b0@ == bs[0]);
            assert(lcp <= b0@.len());
            let mut i: usize = plen;
            while i < lcp
                invariant
                    plen <= i <= lcp <= b0@.len(),
                    out@ == b0@.subrange(plen as int, i as int),
                decreases lcp - i,
            {
                out.push(b0[i]);
                i = i + 1;
                assert(out@ =~= b0@.subrange(plen as int, i as int));
            }
            let mut k: usize = 0;
            let ghost buf0 = self.buffer@;
            while k < out.len()
                invariant
                    k <= out@.len(),
                    self.buffer@ == buf0 + out@.subrange(0, k as int),
                    self.prompt@ == m.prompt,
                    self.last_was_tab == m.last_was_tab,
                    self.prev_was_tab == m.prev_was_tab,
                    self.escape == m.escape,
                decreases out.len() - k,
            {
                self.buffer.push(out[k]);
                k = k + 1;
                assert(self.buffer@ =~= buf0 + out@.subrange(0, k as int));
            }
            assert(out@.subrange(0, out@.len() as int) =~= out@);
            return out;
        }
        if self.prev_was_tab {
            out.push(0x0a);
            let ghost sep = seq![0x20u8, 0x20u8];
            let mut j: usize = 0;
            while j < names.len()
                invariant
                    j <= names@.len(),
                    names@.len() >= 2,
                    strings_view(names@) == candidate_names(ms),
                    bs == all_bytes(candidate_names(ms)),
                    sep == seq![0x20u8, 0x20u8],
                    out@ == seq![0x0au8] + join_seqs(bs.subrange(0, j as int), sep),
                decreases names.len() - j,
            {
                let ghost before = out@;
                if j > 0 {
                    out.push(0x20);
                    out.push(0x20);
                }
                let nb = names[j].as_str().as_bytes();
                assert(nb@ == bs[j as int]);
                let mut i: usize = 0;
                let ghost mid = out@;
                while i < nb.len()
                    invariant
                        i <= nb@.len(),
                        out@ == mid + nb@.subrange(0, i as int),
                    decreases nb.len() - i,
                {
                    out.push(nb[i]);
                    i = i + 1;
                    assert(out@ =~= mid + nb@.subrange(0, i as int));
                }
                assert(nb@.subrange(0, nb@.len() as int) =~= nb@);
                j = j + 1;
                proof {
                    let pre = bs.subrange(0, j as int);
                    assert(pre.drop_last() =~= bs.subrange(0, j - 1));
                    if j == 1 {
                        assert(join_seqs(pre, sep) == pre[0]);
                        assert(out@ =~= seq![0x0au8] + join_seqs(pre, sep));
                    } else {
                        assert(out@ =~= seq![0x0au8] + join_seqs(pre, sep));
                    }
                }
            }
            assert(bs.subrange(0, names.len() as int) =~= bs);
            out.push(0x0a);
            let mut k: usize = 0;
            let ghost o1 = out@;
            while k < self.prompt.len()
                invariant
                    k <= self.prompt@.len(),
                    out@ == o1 + self.prompt@.subrange(0, k as int),
                decreases self.prompt.len() - k,
            {
                out.push(self.prompt[k]);
                k = k + 1;
                assert(out@ =~= o1 + self.prompt@.subrange(0, k as int));
            }
            assert(self.prompt@.subrange(0, self.prompt@.len() as int) =~= self.prompt@);
            let mut k2: usize = 0;
            let ghost o2 = out@;
            while k2 < self.buffer.len()
                invariant
                    k2 <= self.buffer@.len(),
                    out@ == o2 + self.buffer@.subrange(0, k2 as int),
                decreases self.buffer.len() - k2,
            {
                out.push(self.buffer[k2]);
                k2 = k2 + 1;
                assert(out@ =~= o2 + self.buffer@.subrange(0, k2 as int));
            }
            assert(self.buffer@.subrange(0, self.buffer@.len() as int) =~= self.buffer@);
            return out;
        }
        self.last_was_tab = true;
        out.push(0x07);
        assert(out@ =~= seq![0x07u8]);
        out
    }
}

proof fn lemma_last_index_bounds(b: Seq<u8>, c: u8)
    ensures
        -1 <= last_index_of(b, c) < b.len(),
    decreases b.len(),
{
    if b.len() > 0 && b.last() != c {
        lemma_last_index_bounds(b.drop_last(), c);
    }
}

/// Backspace undoes a typed character: typing a printable byte and then
/// erasing it leaves the line as it was.
pub proof fn law_backspace_undoes_typing(m: EditorModel, byte: u8)
    requires
        m.escape == EscapeState::Normal,
        0x20u8 <= byte <= 0x7eu8,
    ensures
        feed_spec(feed_spec(m, byte).0, 0x7fu8).0.buffer == m.buffer,
        feed_spec(feed_spec(m, byte).0, 0x08u8).0.buffer == m.buffer,
{
    assert(m.buffer.push(byte).drop_last() =~= m.buffer);
}

/// The word that a completion request asks about ends the line: it is the
/// line's last `request_spec(b).2.len()` bytes.
proof fn lemma_request_prefix_is_suffix(b: Seq<u8>)
    ensures
        request_spec(b).2.len() <= b.len(),
        request_spec(b).2 == b.subrange(b.len() - request_spec(b).2.len(), b.len() as int),
{
    lemma_last_index_bounds(b, 0x20u8);
    let ss = last_index_of(b, 0x20u8) + 1;
    let seg = b.subrange(ss, b.len() as int);
    lemma_last_index_bounds(seg, 0x2fu8);
    let sl = last_index_of(seg, 0x2fu8);
    if sl >= 0 {
        assert(seg.subrange(sl + 1, seg.len() as int) =~= b.subrange(ss + sl + 1, b.len() as int));
    }
}

/// Completing with a single candidate that extends the word being typed
/// replaces that word with the candidate, followed by `/` for a directory
/// and by a space otherwise.
pub proof fn law_single_completion_replaces_word(m: EditorModel, name: Seq<char>, is_dir: bool)
    requires
        request_spec(m.buffer).2.len() <= bytes_of(name).len(),
        bytes_of(name).subrange(0, request_spec(m.buffer).2.len() as int) == request_spec(m.buffer).2,
    ensures
        complete_spec(m, seq![(name, is_dir)]).0.buffer == m.buffer.subrange(
            0,
            m.buffer.len() - request_spec(m.buffer).2.len(),
        ) + bytes_of(name).push(
            if is_dir {
                0x2fu8
            } else {
                0x20u8
            },
        ),
{
    let b = m.buffer;
    let p = request_spec(b).2;
    let plen = p.len() as int;
    let nb = bytes_of(name);
    let ms = seq![(name, is_dir)];
    lemma_request_prefix_is_suffix(b);
    assert(candidate_names(ms)[0] == name);
    assert(all_bytes(candidate_names(ms))[0] == nb);
    let t: u8 = if is_dir {
        0x2fu8
    } else {
        0x20u8
    };
    let k = b.len() - plen;
    assert(b =~= b.subrange(0, k) + p);
    assert(nb =~= nb.subrange(0, plen) + nb.subrange(plen, nb.len() as int));
    assert(b + nb.subrange(plen, nb.len() as int).push(t) =~= b.subrange(0, k) + nb.push(t));
}

/// Candidates that all start with the word being typed can always be
/// completed: the end of the typed word falls between two characters of
/// each of them.
pub proof fn law_completion_defined(m: EditorModel, typed: Seq<char>, ms: Seq<(Seq<char>, bool)>)
    requires
        request_spec(m.buffer).2 == bytes_of(typed),
        forall|i: int| 0 <= i < ms.len() ==> is_prefix(typed, #[trigger] ms[i].0),
    ensures
        completion_defined(m, ms),
{
    if ms.len() > 0 {
        let name = ms[0].0;
        assert(is_prefix(typed, name));
        let rest = name.subrange(typed.len() as int, name.len() as int);
        assert(typed + rest =~= name);
        lemma_bytes_of_concat(typed, rest);
        assert(candidate_names(ms)[0] == name);
        assert(all_bytes(candidate_names(ms))[0] == bytes_of(name));
    }
}

proof fn lemma_last_index_props(b: Seq<u8>, c: u8)
    ensures
        -1 <= last_index_of(b, c) < b.len(),
        last_index_of(b, c) >= 0 ==> b[last_index_of(b, c)] == c,
        forall|j: int| last_index_of(b, c) < j < b.len() ==> #[trigger] b[j] != c,
    decreases b.len(),
{
    if b.len() > 0 && b.last() != c {
        let p = b.drop_last();
        lemma_last_index_props(p, c);
        assert forall|j: int| last_index_of(b, c) < j < b.len() implies #[trigger] b[j] != c by {
            if j < p.len() {
                assert(b[j] == p[j]);
            }
        }
    }
}

/// The word that a tab completes is the text after the last space: the
/// directory part and the prefix together end the line, hold no space, and
/// start the line or follow a space. The directory part is empty or ends
/// with `/`, the prefix holds no `/`, and commands are completed exactly
/// for a first word without a `/`.
pub proof fn law_request_takes_last_word(b: Seq<u8>)
    ensures
        ({
            let (commands, dir, prefix) = request_spec(b);
            let word = dir + prefix;
            let k = b.len() - word.len();
            &&& 0 <= k
            &&& word == b.subrange(k, b.len() as int)
            &&& k == 0 || b[k - 1] == 0x20u8
            &&& forall|j: int| 0 <= j < word.len() ==> #[trigger] word[j] != 0x20u8
            &&& forall|j: int| 0 <= j < prefix.len() ==> #[trigger] prefix[j] != 0x2fu8
            &&& dir.len() == 0 || dir.last() == 0x2fu8
            &&& commands == (k == 0 && dir.len() == 0)
        }),
{
    lemma_last_index_props(b, 0x20u8);
    let ss = last_index_of(b, 0x20u8) + 1;
    let seg = b.subrange(ss, b.len() as int);
    lemma_last_index_props(seg, 0x2fu8);
    let sl = last_index_of(seg, 0x2fu8);
    let r = request_spec(b);
    assert forall|j: int| 0 <= j < seg.len() implies #[trigger] seg[j] != 0x20u8 by {
        assert(seg[j] == b[ss + j]);
    }
    if sl >= 0 {
        assert(r.1 + r.2 =~= seg);
        assert(r.1.last() == seg[sl]);
        assert forall|j: int| 0 <= j < r.2.len() implies #[trigger] r.2[j] != 0x2fu8 by {
            assert(r.2[j] == seg[sl + 1 + j]);
        }
    } else {
        assert(r.1 + r.2 =~= seg);
    }
}

/// Enter finishes the line: in ordinary input, a carriage return or a line
/// feed appends a line feed to the line and ends it.
pub proof fn law_enter_finishes_line(m: EditorModel, byte: u8)
    requires
        m.escape == EscapeState::Normal,
        byte == 0x0du8 || byte == 0x0au8,
    ensures
        feed_spec(m, byte).0.buffer == m.buffer.push(0x0au8),
        feed_spec(m, byte).1 == ActionModel::Done(seq![0x0au8]),
{
}

} // verus!
