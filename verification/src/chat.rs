//! Conversation-state model of the helper chat app.
//!
//! The module draws nothing; the app owns window layout and calls
//! [`ChatState::render_lines`] to obtain display-ready strings.
//!
//! - A single message's text is capped at [`MAX_MESSAGE_BYTES`] bytes. Input that would push the
//!   message beyond this cap is silently truncated at a character boundary.
//! - History depth is bounded. When the buffer is full, the oldest turn is evicted before the new
//!   one is appended.

use vstd::prelude::*;

use crate::status_bar::BackendState;
use crate::strings::{is_empty, is_whitespace, push_decimal, push_truncated, skip_whitespace, to_chars};

verus! {

/// Maximum size in bytes of a single message's text.
pub const MAX_MESSAGE_BYTES: usize = 8 * 1024;

/// Default maximum number of turns retained in [`ChatState`].
const DEFAULT_MAX_MESSAGES: usize = 64;

/// Who authored a chat turn.
#[derive(Debug, Clone, Copy, PartialEq, Eq, Structural)]
pub enum ChatRole {
    /// The human user.
    User,
    /// The AI assistant.
    Assistant,
}

/// One message in the conversation.
///
/// Assistant turns are stamped with a [`BackendState`] badge and a round-trip latency once
/// [`ChatState::finish_assistant`] is called. Until then, and for all user turns, `badge` and
/// `latency_ms` are `None`.
#[derive(Debug, Clone, PartialEq, Eq)]
pub struct ChatMessage {
    /// Who authored this turn.
    pub role: ChatRole,
    /// Full text of the message (capped at [`MAX_MESSAGE_BYTES`]).
    pub text: String,
    /// Backend that served this turn (finished assistant turns only).
    pub badge: Option<BackendState>,
    /// Round-trip latency in milliseconds (finished assistant turns only).
    pub latency_ms: Option<u32>,
}

/// What a message says.
pub struct Turn {
    /// Who authored it.
    pub role: ChatRole,
    /// Its characters.
    pub text: Seq<char>,
    /// The backend that served it.
    pub badge: Option<BackendState>,
    /// Its latency.
    pub latency_ms: Option<u32>,
}

impl View for ChatMessage {
    type V = Turn;

    open spec fn view(&self) -> Turn {
        Turn {
            role: self.role,
            text: self.text@,
            badge: self.badge,
            latency_ms: self.latency_ms,
        }
    }
}

/// The turn of a user who says `text`.
pub open spec fn user_turn(text: Seq<char>) -> Turn {
    Turn {
        role: ChatRole::User,
        text: crate::strings::truncated(text, MAX_MESSAGE_BYTES as nat),
        badge: None,
        latency_ms: None,
    }
}

/// An assistant turn to which nothing has been said yet.
pub open spec fn open_turn() -> Turn {
    Turn { role: ChatRole::Assistant, text: Seq::empty(), badge: None, latency_ms: None }
}

/// A text to which as much of a chunk is appended as the cap allows.
pub open spec fn appended(text: Seq<char>, chunk: Seq<char>) -> Seq<char> {
    text + crate::strings::truncated(
        chunk,
        (MAX_MESSAGE_BYTES - crate::strings::utf8(text).len()) as nat,
    )
}

/// A history with room for one more turn: the oldest is gone if there was none.
pub open spec fn evicted(turns: Seq<Turn>, cap: nat) -> Seq<Turn> {
    if turns.len() >= cap {
        turns.drop_first()
    } else {
        turns
    }
}

/// What a conversation holds: its turns, oldest first, how many it retains, and whether the last
/// one is still being answered.
#[verifier::ext_equal]
pub struct Conversation {
    /// The turns.
    pub turns: Seq<Turn>,
    /// How many are retained.
    pub cap: nat,
    /// Whether the last turn is open.
    pub open: bool,
}

impl Conversation {
    /// Whether a conversation is a possible one: the history is bounded, every text keeps to the
    /// cap, user turns carry no badge, and an open turn is the last one, an assistant's, and not
    /// stamped yet.
    pub open spec fn valid(self) -> bool {
        &&& 1 <= self.cap
        &&& self.turns.len() <= self.cap
        &&& forall|i: int|
            0 <= i < self.turns.len() ==> crate::strings::utf8(#[trigger] self.turns[i].text).len()
                <= MAX_MESSAGE_BYTES
        &&& forall|i: int|
            0 <= i < self.turns.len() && #[trigger] self.turns[i].role == ChatRole::User
                ==> self.turns[i].badge is None && self.turns[i].latency_ms is None
        &&& self.open ==> {
            &&& self.turns.len() > 0
            &&& self.turns.last().role == ChatRole::Assistant
            &&& self.turns.last().badge is None
            &&& self.turns.last().latency_ms is None
        }
    }

    /// The conversation after a user turn.
    pub open spec fn said(self, text: Seq<char>) -> Conversation {
        Conversation {
            turns: evicted(self.turns, self.cap).push(user_turn(text)),
            cap: self.cap,
            open: false,
        }
    }

    /// The conversation with an open assistant turn.
    pub open spec fn opened(self) -> Conversation {
        if self.open {
            self
        } else {
            Conversation {
                turns: evicted(self.turns, self.cap).push(open_turn()),
                cap: self.cap,
                open: true,
            }
        }
    }

    /// The conversation after a chunk of an answer.
    pub open spec fn streamed(self, chunk: Seq<char>) -> Conversation {
        let c = self.opened();
        let last = c.turns.last();
        Conversation {
            turns: c.turns.drop_last().push(Turn { text: appended(last.text, chunk), ..last }),
            cap: c.cap,
            open: true,
        }
    }

    /// The conversation after the open turn, if any, is stamped and closed.
    pub open spec fn finished(self, badge: BackendState, latency_ms: u32) -> Conversation {
        if self.open {
            let last = self.turns.last();
            Conversation {
                turns: self.turns.drop_last().push(
                    Turn { badge: Some(badge), latency_ms: Some(latency_ms), ..last },
                ),
                cap: self.cap,
                open: false,
            }
        } else {
            self
        }
    }
}

/// In-memory conversation state with bounded history and streaming support.
pub struct ChatState {
    /// Conversation history, oldest first.
    messages: Vec<ChatMessage>,
    /// Maximum number of turns to retain.
    max_messages: usize,
    /// Whether the last message is an open (in-progress) assistant turn.
    assistant_open: bool,
}

impl View for ChatState {
    type V = Conversation;

    closed spec fn view(&self) -> Conversation {
        Conversation {
            turns: turns_of(self.messages@),
            cap: self.max_messages as nat,
            open: self.assistant_open,
        }
    }
}

/// What the messages of a list say.
pub open spec fn turns_of(messages: Seq<ChatMessage>) -> Seq<Turn> {
    messages.map_values(|m: ChatMessage| m@)
}

impl Default for ChatState {
    fn default() -> (r: Self)
        ensures
            r@ == (Conversation { turns: Seq::empty(), cap: 64, open: false }),
            r@.valid(),
    {
        ChatState::new()
    }
}

impl ChatState {
    /// Creates a new [`ChatState`] that retains 64 turns.
    pub fn new() -> (r: Self)
        ensures
            r@ == (Conversation { turns: Seq::empty(), cap: 64, open: false }),
            r@.valid(),
    {
        ChatState::with_capacity(DEFAULT_MAX_MESSAGES)
    }

    /// Creates a new [`ChatState`] with an explicit history cap, at least 1.
    pub fn with_capacity(max_messages: usize) -> (r: Self)
        ensures
            r@ == (Conversation {
                turns: Seq::empty(),
                cap: if max_messages == 0 {
                    1
                } else {
                    max_messages as nat
                },
                open: false,
            }),
            r@.valid(),
    {
        let r = ChatState {
            messages: Vec::new(),
            max_messages: if max_messages == 0 {
                1
            } else {
                max_messages
            },
            assistant_open: false,
        };
        assert(turns_of(r.messages@) == Seq::<Turn>::empty());
        r
    }

    /// Returns all retained messages, oldest first.
    pub fn messages(&self) -> (r: &[ChatMessage])
        ensures
            turns_of(r@) == self@.turns,
    {
        self.messages.as_slice()
    }

    /// Returns the number of retained turns.
    pub fn len(&self) -> (r: usize)
        ensures
            r == self@.turns.len(),
    {
        self.messages.len()
    }

    /// Returns `true` if there are no retained turns.
    pub fn is_empty(&self) -> (r: bool)
        ensures
            r == (self@.turns.len() == 0),
    {
        self.messages.len() == 0
    }

    /// Appends a completed user turn.
    ///
    /// If the buffer is at capacity, the oldest turn is evicted first. The text is truncated at
    /// [`MAX_MESSAGE_BYTES`] if necessary.
    pub fn push_user(&mut self, text: &str)
        requires
            old(self)@.valid(),
        ensures
            final(self)@ == old(self)@.said(text@),
            final(self)@.valid(),
    {
        let mut kept = String::new();
        push_truncated(&mut kept, text, MAX_MESSAGE_BYTES);
        proof {
            crate::strings::lemma_truncated(text@, MAX_MESSAGE_BYTES as nat);
            assert(Seq::<char>::empty() + kept@ == kept@);
        }
        self.evict_if_full();
        let ghost before = self.messages@;
        self.messages.push(
            ChatMessage { role: ChatRole::User, text: kept, badge: None, latency_ms: None },
        );
        self.assistant_open = false;
        assert(turns_of(self.messages@) == turns_of(before).push(user_turn(text@)));
        assert(self@ == old(self)@.said(text@));
    }

    /// Opens an empty assistant turn that [`ChatState::append_chunk`] will fill incrementally.
    ///
    /// If the buffer is at capacity, the oldest turn is evicted first. If an assistant turn is
    /// already open, it is reused.
    pub fn begin_assistant(&mut self)
        requires
            old(self)@.valid(),
        ensures
            final(self)@ == old(self)@.opened(),
            final(self)@.valid(),
            final(self)@.open,
    {
        if self.assistant_open {
            return;
        }
        self.evict_if_full();
        let ghost before = self.messages@;
        self.messages.push(
            ChatMessage {
                role: ChatRole::Assistant,
                text: String::new(),
                badge: None,
                latency_ms: None,
            },
        );
        self.assistant_open = true;
        proof {
            assert(self.messages@.last()@.text == Seq::<char>::empty());
            assert(turns_of(self.messages@) == turns_of(before).push(open_turn()));
            assert(crate::strings::utf8(Seq::<char>::empty()).len() == 0);
            assert(self@ == old(self)@.opened());
        }
    }

    /// Appends `chunk` to the text of the open assistant turn, as far as the cap allows.
    ///
    /// If no assistant turn is currently open, one is opened implicitly.
    pub fn append_chunk(&mut self, chunk: &str)
        requires
            old(self)@.valid(),
        ensures
            final(self)@ == old(self)@.streamed(chunk@),
            final(self)@.valid(),
    {
        self.begin_assistant();
        let ghost before = self.messages@;
        assert(turns_of(before).last() == before.last()@);
        match self.messages.pop() {
            Some(mut msg) => {
                let ghost text = msg.text@;
                assert(turns_of(before)[before.len() - 1].text == text);
                let remaining: usize = MAX_MESSAGE_BYTES - msg.text.as_str().as_bytes().len();
                push_truncated(&mut msg.text, chunk, remaining);
                proof {
                    let add = crate::strings::truncated(chunk@, remaining as nat);
                    crate::strings::lemma_truncated(chunk@, remaining as nat);
                    crate::strings::lemma_utf8_concat(text, add);
                }
                self.messages.push(msg);
                assert(turns_of(self.messages@) == turns_of(before).drop_last().push(msg@));
                assert(self@ == old(self)@.streamed(chunk@));
            },
            None => {},
        }
    }

    /// Stamps the open assistant turn with its backend badge and latency, then closes it.
    ///
    /// If no assistant turn is open, nothing happens.
    pub fn finish_assistant(&mut self, badge: BackendState, latency_ms: u32)
        requires
            old(self)@.valid(),
        ensures
            final(self)@ == old(self)@.finished(badge, latency_ms),
            final(self)@.valid(),
    {
        if !self.assistant_open {
            return;
        }
        let ghost before = self.messages@;
        assert(turns_of(before).last() == before.last()@);
        match self.messages.pop() {
            Some(mut msg) => {
                assert(turns_of(before)[before.len() - 1].text == msg.text@);
                msg.badge = Some(badge);
                msg.latency_ms = Some(latency_ms);
                self.messages.push(msg);
                assert(turns_of(self.messages@) == turns_of(before).drop_last().push(msg@));
            },
            None => {},
        }
        self.assistant_open = false;
        assert(self@ == old(self)@.finished(badge, latency_ms));
    }

    /// Formats the conversation as display lines (most recent last), wrapped to `cols` columns,
    /// and returns at most `max_lines` lines from the tail.
    ///
    /// | Turn | Lines |
    /// |------|-------|
    /// | User | `"> "` + text, wrapped; continuation lines indented to align |
    /// | Assistant | a standalone `"[GPU NNms]"` / `"[CPU NNms]"` / `"[..]"` header line, then the reply wrapped with a small hanging indent |
    ///
    /// Wrapping is by character count. `cols == 0` is treated as `cols == 1`.
    pub fn render_lines(&self, cols: usize, max_lines: usize) -> (r: Vec<String>)
        ensures
            crate::lists::texts(r@) == crate::lists::newest(
                conversation_lines(self@.turns, cols as nat),
                max_lines as nat,
            ),
    {
        let mut all: Vec<String> = Vec::new();
        let mut i: usize = 0;
        proof {
            assert(self@.turns.skip(0) == self@.turns);
            assert(crate::lists::texts(all@) == Seq::<Seq<char>>::empty());
            assert(Seq::<Seq<char>>::empty() + conversation_lines(self@.turns, cols as nat)
                == conversation_lines(self@.turns, cols as nat));
        }
        while i < self.messages.len()
            invariant
                i <= self.messages@.len(),
                self@.turns == turns_of(self.messages@),
                crate::lists::texts(all@) + conversation_lines(
                    self@.turns.skip(i as int),
                    cols as nat,
                ) == conversation_lines(self@.turns, cols as nat),
            decreases self.messages@.len() - i,
        {
            let ghost before = crate::lists::texts(all@);
            let msg = &self.messages[i];
            proof {
                let rest = self@.turns.skip(i as int);
                assert(rest[0] == msg@);
                assert(rest.drop_first() == self@.turns.skip(i + 1));
                crate::lists::lemma_assoc(
                    before,
                    turn_lines(msg@, cols as nat),
                    conversation_lines(rest.drop_first(), cols as nat),
                );
            }
            match msg.role {
                ChatRole::User => {
                    wrap_message(msg.text.as_str(), "> ", "  ", cols, &mut all);
                },
                ChatRole::Assistant => {
                    let h = assistant_header(msg);
                    let ghost header = h@;
                    all.push(h);
                    assert(crate::lists::texts(all@) == before + seq![header]);
                    if !is_empty(msg.text.as_str()) {
                        wrap_message(msg.text.as_str(), "  ", "  ", cols, &mut all);
                        proof {
                            crate::lists::lemma_assoc(
                                before,
                                seq![header],
                                wrapped(msg.text@, "  "@, "  "@, cols as nat),
                            );
                        }
                    }
                },
            }
            i = i + 1;
        }
        proof {
            let none = self@.turns.skip(i as int);
            assert(none.len() == 0);
            assert(crate::lists::texts(all@) + conversation_lines(none, cols as nat)
                == crate::lists::texts(all@));
        }
        if all.len() <= max_lines {
            return all;
        }
        let start: usize = all.len() - max_lines;
        let mut tail: Vec<String> = Vec::new();
        let mut j: usize = start;
        while j < all.len()
            invariant
                start <= j <= all@.len(),
                tail@.len() == j - start,
                forall|k: int| 0 <= k < tail@.len() ==> #[trigger] tail@[k]@ == all@[start + k]@,
            decreases all@.len() - j,
        {
            tail.push(all[j].clone());
            j = j + 1;
        }
        assert(crate::lists::texts(tail@) =~= crate::lists::newest(
            crate::lists::texts(all@),
            max_lines as nat,
        ));
        tail
    }

    /// Evicts the oldest message if the buffer is at capacity.
    fn evict_if_full(&mut self)
        requires
            old(self)@.valid(),
        ensures
            turns_of(final(self).messages@) == evicted(old(self)@.turns, old(self)@.cap),
            final(self).messages@.len() < final(self).max_messages,
            final(self).max_messages == old(self).max_messages,
    {
        if self.messages.len() >= self.max_messages {
            let ghost before = self.messages@;
            self.messages.remove(0);
            assert(turns_of(self.messages@) =~= turns_of(before).drop_first());
            if self.max_messages == 1 {
                self.assistant_open = false;
            }
        }
    }
}

// ---------------------------------------------------------------------------
// Lines
// ---------------------------------------------------------------------------

/// The tag of a badge in a header line, if the backend is known.
pub open spec fn badge_tag(badge: Option<BackendState>) -> Option<Seq<char>> {
    match badge {
        Some(BackendState::Gpu) => Some("GPU"@),
        Some(BackendState::CpuDegraded) => Some("CPU"@),
        _ => None,
    }
}

/// The standalone header line of an assistant turn: the backend badge, plus the round-trip latency
/// once the turn is finished. An unknown backend has neither.
pub open spec fn header_line(turn: Turn) -> Seq<char> {
    match badge_tag(turn.badge) {
        Some(tag) => match turn.latency_ms {
            Some(ms) => seq!['['] + tag + seq![' '] + crate::strings::decimal(ms as nat) + "ms]"@,
            None => seq!['['] + tag + seq![']'],
        },
        None => "[..]"@,
    }
}

/// The display lines of a turn.
pub open spec fn turn_lines(turn: Turn, cols: nat) -> Seq<Seq<char>> {
    match turn.role {
        ChatRole::User => wrapped(turn.text, "> "@, "  "@, cols),
        ChatRole::Assistant => if turn.text.len() == 0 {
            seq![header_line(turn)]
        } else {
            seq![header_line(turn)] + wrapped(turn.text, "  "@, "  "@, cols)
        },
    }
}

/// The display lines of all turns, in order.
pub open spec fn conversation_lines(turns: Seq<Turn>, cols: nat) -> Seq<Seq<char>>
    decreases turns.len(),
{
    if turns.len() == 0 {
        Seq::empty()
    } else {
        turn_lines(turns[0], cols) + conversation_lines(turns.drop_first(), cols)
    }
}

/// How many characters fit on a line behind a prefix: at least one.
pub open spec fn budget(cols: nat, prefix: nat) -> nat {
    if cols <= prefix + 1 {
        1
    } else {
        (cols - prefix) as nat
    }
}

/// The position of the last white space, or 0 if there is none behind the first character.
pub open spec fn last_space(s: Seq<char>) -> nat
    decreases s.len(),
{
    if s.len() == 0 {
        0
    } else if crate::strings::is_white_space(s.last()) {
        (s.len() - 1) as nat
    } else {
        last_space(s.drop_last())
    }
}

/// How many characters of `s` stand on its first line: as many as fit, but where that would split a
/// word, only those before the last white space, if any stand there.
pub open spec fn line_len(s: Seq<char>, fit: nat) -> nat {
    if s.len() <= fit {
        s.len()
    } else {
        let space = last_space(s.take(fit as int));
        if !crate::strings::is_white_space(s[fit as int]) && space > 0 {
            space
        } else {
            fit
        }
    }
}

/// The text of each line of `s`, where `first` characters fit on the first line and `cont` on each
/// other one. White space at a break is dropped.
pub open spec fn pieces(s: Seq<char>, first: nat, cont: nat) -> Seq<Seq<char>>
    decreases s.len(),
    when first > 0 && cont > 0
    via pieces_decreases
{
    if s.len() == 0 {
        Seq::empty()
    } else {
        let n = line_len(s, first) as int;
        seq![s.take(n)] + pieces(crate::strings::trim_start(s.skip(n)), cont, cont)
    }
}

#[via_fn]
proof fn pieces_decreases(s: Seq<char>, first: nat, cont: nat) {
    if s.len() > 0 {
        lemma_line_len(s, first);
        lemma_trim_start_len(s.skip(line_len(s, first) as int));
    }
}

/// The lines of a text behind their prefixes. An empty text has one line, the first prefix alone.
pub open spec fn wrapped(
    text: Seq<char>,
    first_prefix: Seq<char>,
    cont_prefix: Seq<char>,
    cols: nat,
) -> Seq<Seq<char>> {
    if text.len() == 0 {
        seq![first_prefix]
    } else {
        prefixed(
            pieces(text, budget(cols, first_prefix.len()), budget(cols, cont_prefix.len())),
            first_prefix,
            cont_prefix,
        )
    }
}

/// Lines behind their prefixes.
pub open spec fn prefixed(
    lines: Seq<Seq<char>>,
    first_prefix: Seq<char>,
    cont_prefix: Seq<char>,
) -> Seq<Seq<char>> {
    Seq::new(
        lines.len(),
        |i: int|
            (if i == 0 {
                first_prefix
            } else {
                cont_prefix
            }) + lines[i],
    )
}

proof fn lemma_last_space(s: Seq<char>)
    ensures
        last_space(s) == 0 || last_space(s) < s.len(),
        last_space(s) > 0 ==> crate::strings::is_white_space(s[last_space(s) as int]),
    decreases s.len(),
{
    if s.len() > 0 && !crate::strings::is_white_space(s.last()) {
        lemma_last_space(s.drop_last());
    }
}

proof fn lemma_line_len(s: Seq<char>, fit: nat)
    requires
        fit > 0,
        s.len() > 0,
    ensures
        0 < line_len(s, fit) <= s.len(),
        line_len(s, fit) <= fit,
{
    if s.len() > fit {
        lemma_last_space(s.take(fit as int));
    }
}

proof fn lemma_trim_start_len(s: Seq<char>)
    ensures
        crate::strings::trim_start(s).len() <= s.len(),
    decreases s.len(),
{
    if s.len() > 0 && crate::strings::is_white_space(s[0]) {
        lemma_trim_start_len(s.drop_first());
    }
}

/// Every line of a wrapped text holds at least one character and no more than fit on it.
pub proof fn law_lines_keep_to_their_width(s: Seq<char>, first: nat, cont: nat)
    requires
        first > 0,
        cont > 0,
    ensures
        forall|i: int|
            #![trigger pieces(s, first, cont)[i]]
            0 <= i < pieces(s, first, cont).len() ==> 0 < pieces(s, first, cont)[i].len() <= (if i
                == 0 {
                first
            } else {
                cont
            }),
    decreases s.len(),
{
    if s.len() > 0 {
        let n = line_len(s, first) as int;
        let rest = crate::strings::trim_start(s.skip(n));
        lemma_line_len(s, first);
        lemma_trim_start_len(s.skip(n));
        law_lines_keep_to_their_width(rest, cont, cont);
        assert forall|i: int|
            #![trigger pieces(s, first, cont)[i]]
            0 <= i < pieces(s, first, cont).len() implies 0 < pieces(s, first, cont)[i].len() <= (
        if i == 0 {
            first
        } else {
            cont
        }) by {
            if i > 0 {
                assert(pieces(s, first, cont)[i] == pieces(rest, cont, cont)[i - 1]);
            }
        }
    }
}

/// The characters of `s` other than white space.
pub open spec fn visible(s: Seq<char>) -> Seq<char>
    decreases s.len(),
{
    if s.len() == 0 {
        Seq::empty()
    } else if crate::strings::is_white_space(s[0]) {
        visible(s.drop_first())
    } else {
        seq![s[0]] + visible(s.drop_first())
    }
}

/// The texts of some lines, one after the other.
pub open spec fn joined(lines: Seq<Seq<char>>) -> Seq<char>
    decreases lines.len(),
{
    if lines.len() == 0 {
        Seq::empty()
    } else {
        lines[0] + joined(lines.drop_first())
    }
}

proof fn lemma_visible_concat(a: Seq<char>, b: Seq<char>)
    ensures
        visible(a + b) == visible(a) + visible(b),
    decreases a.len(),
{
    if a.len() == 0 {
        assert(a + b == b);
        assert(visible(a) + visible(b) == visible(b));
    } else {
        lemma_visible_concat(a.drop_first(), b);
        assert((a + b).drop_first() == a.drop_first() + b);
        if !crate::strings::is_white_space(a[0]) {
            crate::lists::lemma_assoc(seq![a[0]], visible(a.drop_first()), visible(b));
        }
    }
}

proof fn lemma_visible_trimmed(s: Seq<char>)
    ensures
        visible(crate::strings::trim_start(s)) == visible(s),
    decreases s.len(),
{
    if s.len() > 0 && crate::strings::is_white_space(s[0]) {
        lemma_visible_trimmed(s.drop_first());
    }
}

/// Wrapping loses no text: the lines hold the characters of the text in order, but for white space.
pub proof fn law_wrapping_loses_no_text(s: Seq<char>, first: nat, cont: nat)
    requires
        first > 0,
        cont > 0,
    ensures
        visible(joined(pieces(s, first, cont))) == visible(s),
    decreases s.len(),
{
    if s.len() > 0 {
        let n = line_len(s, first) as int;
        let rest = crate::strings::trim_start(s.skip(n));
        let more = pieces(rest, cont, cont);
        lemma_line_len(s, first);
        lemma_trim_start_len(s.skip(n));
        law_wrapping_loses_no_text(rest, cont, cont);
        lemma_visible_trimmed(s.skip(n));
        assert(pieces(s, first, cont).drop_first() == more);
        lemma_visible_concat(s.take(n), joined(more));
        lemma_visible_concat(s.take(n), s.skip(n));
        assert(s.take(n) + s.skip(n) == s);
    }
}

/// An answer is the concatenation of its chunks, as long as that keeps to the cap.
pub proof fn law_chunks_are_concatenated(text: Seq<char>, a: Seq<char>, b: Seq<char>)
    requires
        crate::strings::utf8(text + a + b).len() <= MAX_MESSAGE_BYTES,
    ensures
        appended(appended(text, a), b) == text + a + b,
        appended(text, a + b) == text + a + b,
{
    crate::strings::lemma_utf8_concat(text, a);
    crate::strings::lemma_utf8_concat(text + a, b);
    crate::strings::lemma_utf8_concat(a, b);
    let m = (MAX_MESSAGE_BYTES - crate::strings::utf8(text).len()) as nat;
    crate::strings::lemma_truncated(a, m);
    crate::strings::lemma_truncated(a + b, m);
    crate::strings::lemma_truncated(
        b,
        (MAX_MESSAGE_BYTES - crate::strings::utf8(text + a).len()) as nat,
    );
    crate::lists::lemma_assoc(text, a, b);
}

/// Each answer keeps its own badge: finishing a turn leaves every earlier one as it is, and so does
/// a user turn that needs no room.
pub proof fn law_badges_are_independent(
    c: Conversation,
    badge: BackendState,
    latency_ms: u32,
    text: Seq<char>,
    i: int,
)
    requires
        c.valid(),
        0 <= i < c.turns.len(),
    ensures
        c.open && i == c.turns.len() - 1 ==> c.finished(badge, latency_ms).turns[i].badge == Some(
            badge,
        ),
        !(c.open && i == c.turns.len() - 1) ==> c.finished(badge, latency_ms).turns[i]
            == c.turns[i],
        c.turns.len() < c.cap ==> c.said(text).turns[i] == c.turns[i],
{
}

/// Returns the standalone header line for an assistant turn: the backend badge, plus round-trip
/// latency once the turn is finished.
///
/// | State | Header |
/// |-------|--------|
/// | `Gpu`, finished | `"[GPU 42ms]"` |
/// | `CpuDegraded`, finished | `"[CPU 42ms]"` |
/// | `Unknown` / in-progress | `"[..]"` |
fn assistant_header(msg: &ChatMessage) -> (r: String)
    ensures
        r@ == header_line(msg@),
{
    let tag = match msg.badge {
        Some(BackendState::Gpu) => "GPU",
        Some(BackendState::CpuDegraded) => "CPU",
        Some(BackendState::Unknown) | None => {
            return "[..]".to_owned();
        },
    };
    let mut out = String::new();
    out.push('[');
    out.push_str(tag);
    match msg.latency_ms {
        Some(ms) => {
            out.push(' ');
            push_decimal(&mut out, ms as u64);
            out.push_str("ms]");
        },
        None => {
            out.push(']');
        },
    }
    assert(out@ =~= header_line(msg@));
    out
}

/// The text `prefix` followed by the characters `lo .. hi` of `v`.
fn prefixed_line(prefix: &str, v: &[char], lo: usize, hi: usize) -> (r: String)
    requires
        lo <= hi <= v@.len(),
    ensures
        r@ == prefix@ + v@.subrange(lo as int, hi as int),
{
    let mut out = prefix.to_owned();
    let mut i: usize = lo;
    while i < hi
        invariant
            lo <= i <= hi <= v@.len(),
            out@ == prefix@ + v@.subrange(lo as int, i as int),
        decreases hi - i,
    {
        out.push(v[i]);
        i = i + 1;
        assert(v@.subrange(lo as int, i as int) == v@.subrange(lo as int, i - 1).push(
            v@[i - 1],
        ));
    }
    out
}

/// How many of the characters from `pos` on stand on a line on which `fit` fit.
fn break_at(v: &[char], pos: usize, fit: usize) -> (n: usize)
    requires
        pos < v@.len(),
        fit > 0,
    ensures
        n == line_len(v@.skip(pos as int), fit as nat),
        0 < n <= v@.len() - pos,
{
    let ghost s = v@.skip(pos as int);
    proof {
        lemma_line_len(s, fit as nat);
    }
    if v.len() - pos <= fit {
        return v.len() - pos;
    }
    if is_whitespace(v[pos + fit]) {
        return fit;
    }
    let mut n: usize = fit;
    assert(s.take(fit as int).take(fit as int) == s.take(fit as int));
    while n > 0 && !is_whitespace(v[pos + n - 1])
        invariant
            n <= fit,
            pos + fit < v@.len() <= usize::MAX,
            s == v@.skip(pos as int),
            last_space(s.take(n as int)) == last_space(s.take(fit as int)),
        decreases n,
    {
        assert(s.take(n as int).drop_last() == s.take(n - 1));
        n = n - 1;
    }
    assert(n > 0 ==> s.take(n as int).last() == v@[pos + n - 1]);
    if n > 1 {
        n - 1
    } else {
        fit
    }
}

/// Wraps `text` into display lines, appending them to `out`.
///
/// The first line is prefixed by `first_prefix`, the others by `cont_prefix`. The combined width
/// of prefix and content is kept within `cols` characters where that leaves room for any content.
/// Empty text produces a single line that holds only the first prefix.
fn wrap_message(
    text: &str,
    first_prefix: &str,
    cont_prefix: &str,
    cols: usize,
    out: &mut Vec<String>,
)
    ensures
        crate::lists::texts(final(out)@) == crate::lists::texts(old(out)@) + wrapped(
            text@,
            first_prefix@,
            cont_prefix@,
            cols as nat,
        ),
{
    let first = to_chars(first_prefix);
    let cont = to_chars(cont_prefix);
    let first_fit: usize = if cols <= first.len() || cols - first.len() <= 1 {
        1
    } else {
        cols - first.len()
    };
    let cont_fit: usize = if cols <= cont.len() || cols - cont.len() <= 1 {
        1
    } else {
        cols - cont.len()
    };
    let ghost start = crate::lists::texts(out@);
    let v = to_chars(text);
    if v.len() == 0 {
        out.push(first_prefix.to_owned());
        assert(crate::lists::texts(out@) =~= start + seq![first_prefix@]);
        return;
    }
    let ghost all = pieces(v@, first_fit as nat, cont_fit as nat);
    let ghost mut done: Seq<Seq<char>> = Seq::empty();
    let mut pos: usize = 0;
    let mut is_first = true;
    proof {
        assert(v@.skip(0) == v@);
        assert(done + all == all);
        assert(start + prefixed(done, first_prefix@, cont_prefix@) =~= start);
    }
    while pos < v.len()
        invariant
            pos <= v@.len(),
            first_fit > 0,
            cont_fit > 0,
            is_first == (done.len() == 0),
            done + pieces(
                v@.skip(pos as int),
                if is_first {
                    first_fit as nat
                } else {
                    cont_fit as nat
                },
                cont_fit as nat,
            ) == all,
            crate::lists::texts(out@) == start + prefixed(done, first_prefix@, cont_prefix@),
        decreases v@.len() - pos,
    {
        let prefix = if is_first {
            first_prefix
        } else {
            cont_prefix
        };
        let fit: usize = if is_first {
            first_fit
        } else {
            cont_fit
        };
        let ghost s = v@.skip(pos as int);
        let n: usize = break_at(v.as_slice(), pos, fit);
        let end: usize = pos + n;
        let line = prefixed_line(prefix, v.as_slice(), pos, end);
        let ghost before = crate::lists::texts(out@);
        out.push(line);
        let next: usize = skip_whitespace(v.as_slice(), end, v.len());
        proof {
            assert(v@.subrange(pos as int, end as int) == s.take(n as int));
            assert(v@.subrange(end as int, v@.len() as int) == s.skip(n as int));
            assert(v@.subrange(next as int, v@.len() as int) == v@.skip(next as int));
            let rest = pieces(v@.skip(next as int), cont_fit as nat, cont_fit as nat);
            crate::lists::lemma_assoc(done, seq![s.take(n as int)], rest);
            let more = done + seq![s.take(n as int)];
            assert(prefixed(more, first_prefix@, cont_prefix@) =~= prefixed(
                done,
                first_prefix@,
                cont_prefix@,
            ).push(prefix@ + s.take(n as int)));
            assert(crate::lists::texts(out@) =~= before.push(line@));
            assert(start + prefixed(done, first_prefix@, cont_prefix@).push(line@) =~= (start
                + prefixed(done, first_prefix@, cont_prefix@)).push(line@));
            done = more;
        }
        pos = next;
        is_first = false;
    }
    proof {
        assert(v@.skip(pos as int).len() == 0);
        assert(done + Seq::<Seq<char>>::empty() == done);
    }
}

/// Returns the largest byte index `<= max_bytes` that is a character boundary in `s`: the byte
/// length of the longest prefix that fits.
pub fn floor_char_boundary(s: &str, max_bytes: usize) -> (r: usize)
    ensures
        r == crate::strings::utf8(crate::strings::truncated(s@, max_bytes as nat)).len(),
        r <= max_bytes,
{
    let mut prefix = String::new();
    proof {
        crate::strings::lemma_truncated(s@, max_bytes as nat);
    }
    push_truncated(&mut prefix, s, max_bytes)
}

/// Whether `n` characters from `p` on are a line on which `fit` fit: all that is left, or as many as
/// fit if no word is split there or none can be kept whole, or else those before the last white
/// space.
pub open spec fn breaks_well(s: Seq<char>, p: int, n: int, fit: nat) -> bool {
    &&& 0 <= p
    &&& 0 < n <= fit
    &&& p + n <= s.len()
    &&& p + n < s.len() ==> {
        ||| n == fit && (crate::strings::is_white_space(s[p + n]) || forall|k: int|
            0 < k < fit ==> !crate::strings::is_white_space(#[trigger] s[p + k]))
        ||| n < fit && p + fit < s.len() && crate::strings::is_white_space(s[p + n])
            && !crate::strings::is_white_space(s[p + fit]) && forall|k: int|
            n < k < fit ==> !crate::strings::is_white_space(#[trigger] s[p + k])
    }
}

/// Whether `line` stands at `p` in the text, with only white space between it and `next`.
pub open spec fn line_stands(
    s: Seq<char>,
    line: Seq<char>,
    p: int,
    next: int,
    fit: nat,
) -> bool {
    let end = p + line.len();
    &&& breaks_well(s, p, line.len() as int, fit)
    &&& line == s.subrange(p, end)
    &&& end <= next <= s.len()
    &&& crate::strings::is_blank(s.subrange(end, next))
}

/// Whether line `i` stands where it begins: only white space stands between it and the next line,
/// and none at its start where it is a later line.
pub open spec fn line_is_placed(
    s: Seq<char>,
    lines: Seq<Seq<char>>,
    starts: Seq<int>,
    i: int,
    fit: nat,
) -> bool {
    let next = if i + 1 < lines.len() {
        starts[i + 1]
    } else {
        s.len() as int
    };
    &&& line_stands(s, lines[i], starts[i], next, fit)
    &&& i > 0 ==> !crate::strings::is_white_space(s[starts[i]])
}

/// Whether `lines` are the lines of `s` that begin at `starts`, the first of them at the front.
pub open spec fn laid_out(
    s: Seq<char>,
    lines: Seq<Seq<char>>,
    starts: Seq<int>,
    first: nat,
    cont: nat,
) -> bool {
    &&& starts.len() == lines.len()
    &&& lines.len() > 0 ==> starts[0] == 0 && line_is_placed(s, lines, starts, 0, first)
    &&& forall|i: int|
        0 < i < lines.len() ==> #[trigger] line_is_placed(s, lines, starts, i, cont)
}

proof fn lemma_last_space_is_last(s: Seq<char>)
    ensures
        forall|k: int| last_space(s) < k < s.len() ==> !crate::strings::is_white_space(s[k]),
        last_space(s) > 0 ==> last_space(s) < s.len() && crate::strings::is_white_space(
            s[last_space(s) as int],
        ),
    decreases s.len(),
{
    if s.len() > 0 && !crate::strings::is_white_space(s.last()) {
        let t = s.drop_last();
        lemma_last_space_is_last(t);
        assert forall|k: int| last_space(s) < k < s.len() implies !crate::strings::is_white_space(
            s[k],
        ) by {
            if k < t.len() {
                assert(t[k] == s[k]);
            }
        }
    }
}

proof fn lemma_line_breaks_well(s: Seq<char>, fit: nat)
    requires
        fit > 0,
        s.len() > 0,
    ensures
        breaks_well(s, 0, line_len(s, fit) as int, fit),
{
    lemma_line_len(s, fit);
    if s.len() > fit {
        let t = s.take(fit as int);
        lemma_last_space_is_last(t);
        let n = line_len(s, fit) as int;
        assert forall|k: int| last_space(t) < k < fit implies !crate::strings::is_white_space(
            #[trigger] s[0 + k],
        ) by {
            assert(t[k] == s[k]);
        }
        if n < fit {
            assert(t[n] == s[n]);
        }
    }
}

proof fn lemma_stands_moved(s: Seq<char>, m: int, line: Seq<char>, q: int, next: int, fit: nat)
    requires
        0 <= m <= s.len(),
        0 <= q,
        line_stands(s.skip(m), line, q, next, fit),
    ensures
        line_stands(s, line, m + q, m + next, fit),
{
    lemma_breaks_moved(s, m, q, line.len() as int, fit);
    let t = s.skip(m);
    let end = q + line.len();
    assert(s.subrange(m + q, m + end) =~= t.subrange(q, end));
    assert(s.subrange(m + end, m + next) =~= t.subrange(end, next));
}

/// The lines behind the first one, put in their places.
proof fn lemma_laid_out_behind(
    s: Seq<char>,
    n: int,
    m: int,
    inner: Seq<int>,
    more: Seq<Seq<char>>,
    first: nat,
    cont: nat,
) -> (starts: Seq<int>)
    requires
        0 <= n <= m <= s.len(),
        line_stands(s, s.take(n), 0, m, first),
        laid_out(s.skip(m), more, inner, cont, cont),
        m < s.len() ==> more.len() > 0 && !crate::strings::is_white_space(s[m]),
        m == s.len() ==> more.len() == 0,
    ensures
        laid_out(s, seq![s.take(n)] + more, starts, first, cont),
{
    let rest = s.skip(m);
    let lines = seq![s.take(n)] + more;
    let moved = Seq::new(inner.len(), |i: int| m + inner[i]);
    let starts = seq![0int] + moved;
    if more.len() > 0 {
        assert(starts[1] == moved[0]);
    }
    assert(line_is_placed(s, lines, starts, 0, first));
    assert forall|i: int| 0 < i < lines.len() implies #[trigger] line_is_placed(
        s,
        lines,
        starts,
        i,
        cont,
    ) by {
        let j = i - 1;
        let q = inner[j];
        let next = if j + 1 < more.len() {
            inner[j + 1]
        } else {
            rest.len() as int
        };
        assert(line_is_placed(rest, more, inner, j, cont));
        assert(starts[i] == moved[j]);
        assert(lines[i] == more[j]);
        lemma_stands_moved(s, m, more[j], q, next, cont);
        if i + 1 < lines.len() {
            assert(starts[i + 1] == moved[j + 1]);
        }
        assert(s[m + q] == rest[q]);
    }
    starts
}

/// Wrapped text is laid out line by line: each line holds as much of the text as fits without
/// splitting a word, a word that fits on no line is split where the line is full, and between two
/// lines nothing is left out but white space.
pub proof fn law_wrapping_keeps_words_whole(s: Seq<char>, first: nat, cont: nat) -> (starts: Seq<
    int,
>)
    requires
        first > 0,
        cont > 0,
    ensures
        laid_out(s, pieces(s, first, cont), starts, first, cont),
        s.len() > 0 ==> pieces(s, first, cont).len() > 0,
    decreases s.len(),
{
    if s.len() == 0 {
        Seq::empty()
    } else {
        let n = line_len(s, first) as int;
        let tail = s.skip(n);
        let rest = crate::strings::trim_start(tail);
        lemma_line_len(s, first);
        lemma_line_breaks_well(s, first);
        lemma_trim_start_len(tail);
        lemma_trimmed_off(tail);
        let m = s.len() - rest.len();
        assert(rest =~= s.skip(m));
        assert(s.subrange(n, m) =~= tail.take(m - n));
        assert(s.take(n) =~= s.subrange(0, n));
        let inner = law_wrapping_keeps_words_whole(rest, cont, cont);
        let more = pieces(rest, cont, cont);
        if m < s.len() {
            assert(s[m] == rest[0]);
        }
        assert(pieces(s, first, cont) =~= seq![s.take(n)] + more);
        lemma_laid_out_behind(s, n, m, inner, more, first, cont)
    }
}

proof fn lemma_breaks_moved(s: Seq<char>, m: int, p: int, n: int, fit: nat)
    requires
        0 <= m <= s.len(),
        breaks_well(s.skip(m), p, n, fit),
    ensures
        breaks_well(s, m + p, n, fit),
{
    let t = s.skip(m);
    assert forall|k: int| 0 <= k < t.len() - p implies #[trigger] s[m + p + k] == t[p + k] by {}
    if m + p + n < s.len() {
        assert(s[m + p + n] == t[p + n]);
        if n < fit {
            assert(s[m + p + fit] == t[p + fit]);
        }
    }
}

proof fn lemma_trimmed_off(s: Seq<char>)
    ensures
        ({
            let r = crate::strings::trim_start(s);
            &&& r.len() <= s.len()
            &&& r == s.skip(s.len() - r.len())
            &&& crate::strings::is_blank(s.take(s.len() - r.len()))
            &&& r.len() > 0 ==> !crate::strings::is_white_space(r[0])
        }),
    decreases s.len(),
{
    let r = crate::strings::trim_start(s);
    if s.len() > 0 && crate::strings::is_white_space(s[0]) {
        let t = s.drop_first();
        lemma_trimmed_off(t);
        let k = s.len() - r.len();
        assert(t.skip(k - 1) =~= s.skip(k));
        assert forall|i: int| 0 <= i < k implies crate::strings::is_white_space(
            #[trigger] s.take(k)[i],
        ) by {
            if i > 0 {
                assert(t.take(k - 1)[i - 1] == s.take(k)[i]);
            }
        }
    } else {
        assert(s.skip(0) =~= s);
    }
}

/// Turns are shown one after the other, the oldest first: the lines of a conversation are those of
/// its first turns and then those of the others, and a single turn has its own.
pub proof fn law_turns_are_shown_in_order(a: Seq<Turn>, b: Seq<Turn>, turn: Turn, cols: nat)
    ensures
        conversation_lines(a + b, cols) == conversation_lines(a, cols) + conversation_lines(
            b,
            cols,
        ),
        conversation_lines(seq![turn], cols) == turn_lines(turn, cols),
    decreases a.len(),
{
    reveal_with_fuel(conversation_lines, 2);
    assert(seq![turn].drop_first() =~= Seq::empty());
    assert(conversation_lines(seq![turn], cols) =~= turn_lines(turn, cols));
    if a.len() == 0 {
        assert(a + b =~= b);
        assert(conversation_lines(a, cols) + conversation_lines(b, cols) =~= conversation_lines(
            b,
            cols,
        ));
    } else {
        law_turns_are_shown_in_order(a.drop_first(), b, turn, cols);
        assert((a + b).drop_first() =~= a.drop_first() + b);
        crate::lists::lemma_assoc(
            turn_lines(a[0], cols),
            conversation_lines(a.drop_first(), cols),
            conversation_lines(b, cols),
        );
    }
}

/// A conversation holds its newest turns, as many as it has room for.
pub proof fn law_the_newest_turns_are_kept(c: Conversation, text: Seq<char>)
    requires
        c.valid(),
    ensures
        c.said(text).turns == crate::lists::newest(c.turns.push(user_turn(text)), c.cap),
        !c.open ==> c.opened().turns == crate::lists::newest(c.turns.push(open_turn()), c.cap),
{
    let u = c.turns.push(user_turn(text));
    let v = c.turns.push(open_turn());
    if c.turns.len() >= c.cap {
        assert(c.said(text).turns =~= u.skip(1));
        if !c.open {
            assert(c.opened().turns =~= v.skip(1));
        }
    }
}

/// Text that fits on one line behind its prefix stands there whole.
pub proof fn law_lines_use_the_whole_width(
    text: Seq<char>,
    first_prefix: Seq<char>,
    cont_prefix: Seq<char>,
    cols: nat,
)
    requires
        0 < text.len(),
        first_prefix.len() + text.len() <= cols,
    ensures
        wrapped(text, first_prefix, cont_prefix, cols) == seq![first_prefix + text],
{
    let first = budget(cols, first_prefix.len());
    let cont = budget(cols, cont_prefix.len());
    let none = Seq::<char>::empty();
    assert(text.len() <= first);
    assert(text.take(text.len() as int) =~= text);
    assert(text.skip(text.len() as int) =~= none);
    assert(crate::strings::trim_start(none) =~= none);
    assert(pieces(none, cont, cont) =~= Seq::empty());
    assert(pieces(text, first, cont) =~= seq![text]);
    assert(wrapped(text, first_prefix, cont_prefix, cols) =~= seq![first_prefix + text]);
}

/// A user's turn starts with an angle bracket and goes on indented. An assistant's turn starts with
/// its header, and its text is indented.
pub proof fn law_turns_are_told_apart(turn: Turn, cols: nat, i: int)
    requires
        0 <= i < turn_lines(turn, cols).len(),
    ensures
        turn.role == ChatRole::User && i == 0 ==> crate::strings::has_prefix(
            turn_lines(turn, cols)[i],
            "> "@,
        ),
        turn.role == ChatRole::User && i > 0 ==> crate::strings::has_prefix(
            turn_lines(turn, cols)[i],
            "  "@,
        ),
        turn.role == ChatRole::Assistant && i == 0 ==> turn_lines(turn, cols)[i] == header_line(
            turn,
        ),
        turn.role == ChatRole::Assistant && i > 0 ==> crate::strings::has_prefix(
            turn_lines(turn, cols)[i],
            "  "@,
        ),
        turn.role == ChatRole::Assistant && turn.text.len() == 0 ==> turn_lines(turn, cols).len()
            == 1,
{
    let line = turn_lines(turn, cols)[i];
    let n = if turn.role == ChatRole::User && i == 0 {
        "> "@
    } else {
        "  "@
    };
    if turn.role == ChatRole::User || i > 0 {
        let w = if turn.role == ChatRole::User {
            wrapped(turn.text, "> "@, "  "@, cols)
        } else {
            wrapped(turn.text, "  "@, "  "@, cols)
        };
        let j = if turn.role == ChatRole::User {
            i
        } else {
            i - 1
        };
        assert(line == w[j]);
        if turn.text.len() == 0 {
            assert(w == seq![n]);
            assert(n.take(n.len() as int) =~= n);
        } else {
            let p = w[j].skip(n.len() as int);
            assert(w[j].take(n.len() as int) =~= n);
        }
    }
}

/// A header names the processor that answered and how long it took, and is left open while neither
/// is known.
pub proof fn law_headers_tell_the_backend_and_the_time(turn: Turn, ms: u32)
    ensures
        turn.badge == Some(BackendState::Gpu) && turn.latency_ms == Some(ms) ==> header_line(turn)
            == "[GPU "@ + crate::strings::decimal(ms as nat) + "ms]"@,
        turn.badge == Some(BackendState::CpuDegraded) && turn.latency_ms == Some(ms)
            ==> header_line(turn) == "[CPU "@ + crate::strings::decimal(ms as nat) + "ms]"@,
        turn.badge is None || turn.badge == Some(BackendState::Unknown) ==> header_line(turn)
            == "[..]"@,
{
    reveal_strlit("GPU");
    reveal_strlit("CPU");
    reveal_strlit("[GPU ");
    reveal_strlit("[CPU ");
    assert(seq!['['] + "GPU"@ + seq![' '] =~= "[GPU "@);
    assert(seq!['['] + "CPU"@ + seq![' '] =~= "[CPU "@);
}

} // verus!
