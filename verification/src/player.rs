//! The decisions of the presentation loop: which page is shown and how the
//! keys the presenter presses move through the deck.

use vstd::prelude::*;
use crate::text::string_of;

verus! {

/// A key press, as the presentation loop sees it.
#[derive(Debug, Clone, Copy, PartialEq, Eq)]
pub enum KeyInput {
    Esc,
    Enter,
    Backspace,
    Left,
    Right,
    Char(char),
    Other,
}

/// What the loop must do after a key press, beyond redrawing.
#[derive(Debug, Clone, Copy, PartialEq, Eq)]
pub enum PlayerAction {
    /// Nothing more.
    Nothing,
    /// Open the first image of the given page in the system viewer.
    OpenImage(usize),
}

/// The state of the presentation loop.
#[derive(Debug, Clone, PartialEq)]
pub struct Player {
    /// The page shown, counted from 0.
    pub current_page: usize,
    /// The number of pages of the deck.
    pub total_pages: usize,
    /// Whether a page number is being typed after `G`.
    pub in_goto_mode: bool,
    /// The digits typed so far in that mode.
    pub goto_buffer: Vec<char>,
    /// Whether the presentation ends.
    pub should_quit: bool,
}

/// The mathematical value of a [`Player`].
pub struct PlayerView {
    pub page: int,
    pub total: int,
    pub goto_mode: bool,
    pub buffer: Seq<char>,
    pub quit: bool,
}

impl View for Player {
    type V = PlayerView;

    open spec fn view(&self) -> PlayerView {
        PlayerView {
            page: self.current_page as int,
            total: self.total_pages as int,
            goto_mode: self.in_goto_mode,
            buffer: self.goto_buffer@,
            quit: self.should_quit,
        }
    }
}

pub open spec fn is_digit(c: char) -> bool {
    '0' <= c && c <= '9'
}

/// The number that the decimal digits `s` spell.
pub open spec fn digits_value(s: Seq<char>) -> int
    decreases s.len(),
{
    if s.len() == 0 {
        0
    } else {
        digits_value(s.drop_last()) * 10 + (s.last() as int - '0' as int)
    }
}

/// What `str::parse::<usize>` gives for a string of decimal digits: nothing
/// for the empty string or a number too large for `usize`.
pub open spec fn parse_page_number(s: Seq<char>) -> Option<int> {
    if s.len() == 0 || digits_value(s) > usize::MAX {
        None
    } else {
        Some(digits_value(s))
    }
}

/// The page that typing the page number `target` (counted from 1) selects
/// in a deck of `total` pages: 0 selects the first page, a number past the
/// end selects the last.
pub open spec fn goto_target(target: int, total: int) -> int {
    if target == 0 {
        0
    } else if target - 1 < total - 1 {
        target - 1
    } else {
        total - 1
    }
}

/// The state after pressing `key` in state `p`, and what the loop must do.
pub open spec fn key_step(p: PlayerView, key: KeyInput) -> (PlayerView, PlayerAction) {
    if p.goto_mode {
        match key {
            KeyInput::Esc => (PlayerView { goto_mode: false, buffer: Seq::empty(), ..p }, PlayerAction::Nothing),
            KeyInput::Enter => {
                let page = match parse_page_number(p.buffer) {
                    Some(t) => goto_target(t, p.total),
                    None => p.page,
                };
                (PlayerView { page, goto_mode: false, buffer: Seq::empty(), ..p }, PlayerAction::Nothing)
            },
            KeyInput::Backspace => (
                PlayerView {
                    buffer: if p.buffer.len() > 0 {
                        p.buffer.drop_last()
                    } else {
                        p.buffer
                    },
                    ..p
                },
                PlayerAction::Nothing,
            ),
            KeyInput::Char(c) => if is_digit(c) {
                (PlayerView { buffer: p.buffer.push(c), ..p }, PlayerAction::Nothing)
            } else {
                (p, PlayerAction::Nothing)
            },
            _ => (p, PlayerAction::Nothing),
        }
    } else {
        match key {
            KeyInput::Esc => (PlayerView { quit: true, ..p }, PlayerAction::Nothing),
            KeyInput::Right => (
                PlayerView {
                    page: if p.page < p.total - 1 {
                        p.page + 1
                    } else {
                        p.page
                    },
                    ..p
                },
                PlayerAction::Nothing,
            ),
            KeyInput::Left => (
                PlayerView {
                    page: if p.page > 0 {
                        p.page - 1
                    } else {
                        0
                    },
                    ..p
                },
                PlayerAction::Nothing,
            ),
            KeyInput::Char(c) => if c == 'q' || c == 'Q' {
                (PlayerView { quit: true, ..p }, PlayerAction::Nothing)
            } else if c == ' ' {
                (
                    PlayerView {
                        page: if p.page < p.total - 1 {
                            p.page + 1
                        } else {
                            p.page
                        },
                        ..p
                    },
                    PlayerAction::Nothing,
                )
            } else if c == 'g' || c == 'G' {
                (PlayerView { goto_mode: true, buffer: Seq::empty(), ..p }, PlayerAction::Nothing)
            } else if c == 'o' || c == 'O' {
                (p, PlayerAction::OpenImage(p.page as usize))
            } else {
                (p, PlayerAction::Nothing)
            },
            _ => (p, PlayerAction::Nothing),
        }
    }
}

/// The shown page is a page of the deck, and the typed page number holds
/// only decimal digits.
pub open spec fn player_ok(p: PlayerView) -> bool {
    &&& 0 <= p.page < p.total
    &&& p.total <= usize::MAX
    &&& forall|k: int| 0 <= k < p.buffer.len() ==> is_digit(#[trigger] p.buffer[k])
}

/// The number spelled by `digits`, when it fits in a `usize`.
fn parse_digits(digits: &Vec<char>) -> (r: Option<usize>)
    requires
        forall|k: int| 0 <= k < digits@.len() ==> is_digit(#[trigger] digits@[k]),
    ensures
        r matches Some(v) ==> parse_page_number(digits@) == Some(v as int),
        r is None ==> parse_page_number(digits@) is None,
{
    proof {
        lemma_digits_value_nonneg(digits@);
    }
    if digits.len() == 0 {
        return None;
    }
    let mut value: usize = 0;
    let mut k: usize = 0;
    while k < digits.len()
        invariant
            k <= digits.len(),
            forall|m: int| 0 <= m < digits@.len() ==> is_digit(#[trigger] digits@[m]),
            value as int == digits_value(digits@.take(k as int)),
        decreases digits.len() - k,
    {
        let ghost t = digits@.take(k + 1);
        assert(t.drop_last() =~= digits@.take(k as int));
        assert(is_digit(digits@[k as int]));
        let d = (digits[k] as u32 - '0' as u32) as usize;
        match value.checked_mul(10) {
            Some(v10) => match v10.checked_add(d) {
                Some(v) => {
                    value = v;
                },
                None => {
                    proof {
                        lemma_digits_value_grows(digits@, k + 1);
                    }
                    return None;
                },
            },
            None => {
                proof {
                    lemma_digits_value_grows(digits@, k + 1);
                }
                return None;
            },
        }
        k = k + 1;
    }
    assert(digits@.take(k as int) =~= digits@);
    Some(value)
}

proof fn lemma_digits_value_grows(s: Seq<char>, n: int)
    requires
        0 <= n <= s.len(),
        forall|m: int| 0 <= m < s.len() ==> is_digit(#[trigger] s[m]),
    ensures
        digits_value(s.take(n)) <= digits_value(s),
    decreases s.len() - n,
{
    if n < s.len() {
        lemma_digits_value_grows(s, n + 1);
        assert(s.take(n + 1).drop_last() =~= s.take(n));
        lemma_digits_value_nonneg(s.take(n));
        assert(is_digit(s[n]));
    } else {
        assert(s.take(n) =~= s);
    }
}

proof fn lemma_digits_value_nonneg(s: Seq<char>)
    requires
        forall|m: int| 0 <= m < s.len() ==> is_digit(#[trigger] s[m]),
    ensures
        digits_value(s) >= 0,
    decreases s.len(),
{
    if s.len() > 0 {
        assert(is_digit(s[s.len() - 1]));
        lemma_digits_value_nonneg(s.drop_last());
    }
}

impl Player {
    /// The first page of a deck of `total_pages` pages.
    pub fn new(total_pages: usize) -> (p: Self)
        requires
            total_pages >= 1,
        ensures
            p@.page == 0,
            p@.total == total_pages,
            !p@.goto_mode,
            p@.buffer == Seq::<char>::empty(),
            !p@.quit,
            player_ok(p@),
    {
        Player {
            current_page: 0,
            total_pages,
            in_goto_mode: false,
            goto_buffer: Vec::new(),
            should_quit: false,
        }
    }

    /// The typed page number, while one is being typed.
    pub fn goto_input(&self) -> (r: Option<String>)
        ensures
            self.in_goto_mode ==> (r matches Some(s) && s@ == self.goto_buffer@),
            !self.in_goto_mode ==> r is None,
    {
        if self.in_goto_mode {
            Some(string_of(&self.goto_buffer))
        } else {
            None
        }
    }

    fn next_page(&mut self)
        requires
            old(self).current_page < old(self).total_pages,
        ensures
            final(self)@ == (PlayerView {
                page: if old(self)@.page < old(self)@.total - 1 {
                    old(self)@.page + 1
                } else {
                    old(self)@.page
                },
                ..old(self)@
            }),
    {
        if self.current_page < self.total_pages - 1 {
            self.current_page = self.current_page + 1;
        }
    }

    /// Reacts to a key press (see [`key_step`]).
    pub fn handle_key(&mut self, key: KeyInput) -> (action: PlayerAction)
        requires
            player_ok(old(self)@),
        ensures
            (final(self)@, action) == key_step(old(self)@, key),
            player_ok(final(self)@),
    {
        if self.in_goto_mode {
            match key {
                KeyInput::Esc => {
                    self.in_goto_mode = false;
                    self.goto_buffer = Vec::new();
                },
                KeyInput::Enter => {
                    match parse_digits(&self.goto_buffer) {
                        Some(target) => {
                            self.current_page = if target == 0 {
                                0
                            } else if target - 1 < self.total_pages - 1 {
                                target - 1
                            } else {
                                self.total_pages - 1
                            };
                        },
                        None => {},
                    }
                    self.in_goto_mode = false;
                    self.goto_buffer = Vec::new();
                },
                KeyInput::Backspace => {
                    if self.goto_buffer.len() > 0 {
                        let ghost b = self.goto_buffer@;
                        self.goto_buffer.pop();
                        assert(self.goto_buffer@ =~= b.drop_last());
                    }
                },
                KeyInput::Char(c) => {
                    if '0' <= c && c <= '9' {
                        self.goto_buffer.push(c);
                    }
                },
                _ => {},
            }
            PlayerAction::Nothing
        } else {
            match key {
                KeyInput::Esc => {
                    self.should_quit = true;
                    PlayerAction::Nothing
                },
                KeyInput::Right => {
                    self.next_page();
                    PlayerAction::Nothing
                },
                KeyInput::Left => {
                    if self.current_page > 0 {
                        self.current_page = self.current_page - 1;
                    }
                    PlayerAction::Nothing
                },
                KeyInput::Char(c) => {
                    if c == 'q' || c == 'Q' {
                        self.should_quit = true;
                        PlayerAction::Nothing
                    } else if c == ' ' {
                        self.next_page();
                        PlayerAction::Nothing
                    } else if c == 'g' || c == 'G' {
                        self.in_goto_mode = true;
                        self.goto_buffer = Vec::new();
                        PlayerAction::Nothing
                    } else if c == 'o' || c == 'O' {
                        PlayerAction::OpenImage(self.current_page)
                    } else {
                        PlayerAction::Nothing
                    }
                },
                _ => PlayerAction::Nothing,
            }
        }
    }
}

/// Moving one page forward and then one page back returns to the same page,
/// unless the page was the last one.
pub proof fn lemma_next_then_previous(p: PlayerView)
    requires
        player_ok(p),
        !p.goto_mode,
        p.page < p.total - 1,
    ensures
        key_step(key_step(p, KeyInput::Right).0, KeyInput::Left).0 == p,
{
}

/// Outside page-number mode, `q`, `Q` and Esc end the presentation and
/// change nothing else; inside it, Esc only leaves the mode.
pub proof fn lemma_quit_keys(p: PlayerView)
    ensures
        !p.goto_mode ==> key_step(p, KeyInput::Char('q')) == (PlayerView { quit: true, ..p }, PlayerAction::Nothing),
        !p.goto_mode ==> key_step(p, KeyInput::Char('Q')) == (PlayerView { quit: true, ..p }, PlayerAction::Nothing),
        !p.goto_mode ==> key_step(p, KeyInput::Esc) == (PlayerView { quit: true, ..p }, PlayerAction::Nothing),
        p.goto_mode ==> key_step(p, KeyInput::Esc) == (
            PlayerView { goto_mode: false, buffer: Seq::empty(), ..p },
            PlayerAction::Nothing,
        ),
{
}

/// Outside page-number mode the space bar does exactly what the right arrow
/// does; and the right arrow moves one page forward, staying on the last page.
pub proof fn lemma_space_is_next_page(p: PlayerView)
    requires
        !p.goto_mode,
    ensures
        key_step(p, KeyInput::Char(' ')) == key_step(p, KeyInput::Right),
        key_step(p, KeyInput::Right).1 == PlayerAction::Nothing,
        key_step(p, KeyInput::Right).0 == (PlayerView {
            page: if p.page + 1 < p.total { p.page + 1 } else { p.page },
            ..p
        }),
{
}

/// Typing a page number and confirming it shows that page when it exists,
/// the last page when it is past the end, and the first page for 0.
pub proof fn lemma_goto_lands_in_deck(p: PlayerView)
    requires
        player_ok(p),
        p.goto_mode,
    ensures
        ({
            let q = key_step(p, KeyInput::Enter).0;
            &&& player_ok(q)
            &&& !q.goto_mode
            &&& forall|t: int| parse_page_number(p.buffer) == Some(t) && 1 <= t <= p.total ==> q.page == t - 1
        }),
{
    lemma_digits_value_nonneg(p.buffer);
}


/// The state after pressing the keys `keys` in order.
pub open spec fn keys_run(p: PlayerView, keys: Seq<KeyInput>) -> PlayerView
    decreases keys.len(),
{
    if keys.len() == 0 {
        p
    } else {
        key_step(keys_run(p, keys.drop_last()), keys.last()).0
    }
}

/// The key press that types `c`.
pub open spec fn char_key(c: char) -> KeyInput {
    KeyInput::Char(c)
}

/// The key presses that type the characters `ds`.
pub open spec fn char_keys(ds: Seq<char>) -> Seq<KeyInput> {
    ds.map_values(|c: char| char_key(c))
}

proof fn lemma_typing_digits(p: PlayerView, g: char, ds: Seq<char>, n: int)
    requires
        player_ok(p),
        !p.goto_mode,
        g == 'g' || g == 'G',
        forall|k: int| 0 <= k < ds.len() ==> is_digit(#[trigger] ds[k]),
        0 <= n <= ds.len(),
    ensures
        keys_run(p, seq![KeyInput::Char(g)] + char_keys(ds.take(n))) == (PlayerView {
            goto_mode: true,
            buffer: ds.take(n),
            ..p
        }),
    decreases n,
{
    let keys = seq![KeyInput::Char(g)] + char_keys(ds.take(n));
    if n == 0 {
        assert(ds.take(0) =~= Seq::<char>::empty());
        assert(char_keys(ds.take(0)) =~= Seq::<KeyInput>::empty());
        assert(keys =~= seq![KeyInput::Char(g)]);
        assert(keys.drop_last() =~= Seq::<KeyInput>::empty());
        assert(keys_run(p, keys.drop_last()) == p);
        assert(keys.last() == KeyInput::Char(g));
        assert(key_step(p, KeyInput::Char(g)).0 == (PlayerView { goto_mode: true, buffer: Seq::empty(), ..p }));
    } else {
        lemma_typing_digits(p, g, ds, n - 1);
        assert(char_keys(ds.take(n)) =~= char_keys(ds.take(n - 1)).push(char_key(ds[n - 1])));
        assert(keys =~= (seq![KeyInput::Char(g)] + char_keys(ds.take(n - 1))).push(KeyInput::Char(ds[n - 1])));
        assert(keys.drop_last() =~= seq![KeyInput::Char(g)] + char_keys(ds.take(n - 1)));
        assert(keys.last() == KeyInput::Char(ds[n - 1]));
        assert(is_digit(ds[n - 1]));
        assert(ds.take(n - 1).push(ds[n - 1]) =~= ds.take(n));
        let q = keys_run(p, keys.drop_last());
        assert(q == (PlayerView { goto_mode: true, buffer: ds.take(n - 1), ..p }));
        assert(key_step(q, KeyInput::Char(ds[n - 1])).0 == (PlayerView { goto_mode: true, buffer: ds.take(n), ..p }));
    }
}

/// Pressing `g` (or `G`), typing the digits `ds` and pressing Enter leaves
/// page-number mode on the page that the number selects (the first page for
/// 0, the last one past the end), or on the same page when the digits spell
/// no `usize`; pressing Esc in place of Enter keeps the page.
pub proof fn lemma_goto_sequence(p: PlayerView, g: char, ds: Seq<char>)
    requires
        player_ok(p),
        !p.goto_mode,
        g == 'g' || g == 'G',
        forall|k: int| 0 <= k < ds.len() ==> is_digit(#[trigger] ds[k]),
    ensures
        ({
            let typed = seq![KeyInput::Char(g)] + char_keys(ds);
            let entered = keys_run(p, typed.push(KeyInput::Enter));
            let cancelled = keys_run(p, typed.push(KeyInput::Esc));
            &&& !entered.goto_mode
            &&& entered.page == match parse_page_number(ds) {
                Some(t) => goto_target(t, p.total),
                None => p.page,
            }
            &&& player_ok(entered)
            &&& !cancelled.goto_mode
            &&& cancelled.page == p.page
        }),
{
    lemma_typing_digits(p, g, ds, ds.len() as int);
    assert(ds.take(ds.len() as int) =~= ds);
    let typed = seq![KeyInput::Char(g)] + char_keys(ds);
    assert(typed.push(KeyInput::Enter).drop_last() =~= typed);
    assert(typed.push(KeyInput::Esc).drop_last() =~= typed);
    lemma_digits_value_nonneg(ds);
}


proof fn lemma_key_step_ok(p: PlayerView, key: KeyInput)
    requires
        player_ok(p),
    ensures
        player_ok(key_step(p, key).0),
{
    lemma_digits_value_nonneg(p.buffer);
    let q = key_step(p, key).0;
    if p.goto_mode {
        if let KeyInput::Backspace = key {
            if p.buffer.len() > 0 {
                assert forall|k: int| 0 <= k < q.buffer.len() implies is_digit(#[trigger] q.buffer[k]) by {
                    assert(q.buffer[k] == p.buffer[k]);
                }
            }
        }
        if let KeyInput::Char(c) = key {
            if is_digit(c) {
                assert forall|k: int| 0 <= k < q.buffer.len() implies is_digit(#[trigger] q.buffer[k]) by {
                    if k < p.buffer.len() {
                        assert(q.buffer[k] == p.buffer[k]);
                    }
                }
            }
        }
    }
}

/// Whatever keys are pressed from the first page of a deck, the page shown
/// stays a page of the deck, whose size never changes.
pub proof fn lemma_pages_stay_in_deck(total: int, keys: Seq<KeyInput>)
    requires
        1 <= total <= usize::MAX,
    ensures
        ({
            let start = PlayerView { page: 0, total, goto_mode: false, buffer: Seq::empty(), quit: false };
            &&& player_ok(keys_run(start, keys))
            &&& keys_run(start, keys).total == total
        }),
    decreases keys.len(),
{
    let start = PlayerView { page: 0, total, goto_mode: false, buffer: Seq::empty(), quit: false };
    if keys.len() > 0 {
        lemma_pages_stay_in_deck(total, keys.drop_last());
        lemma_key_step_ok(keys_run(start, keys.drop_last()), keys.last());
    }
}

} // verus!
