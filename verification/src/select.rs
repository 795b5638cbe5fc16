use vstd::prelude::*;
use vstd::arithmetic::div_mod::{
    lemma_div_is_ordered, lemma_div_nonincreasing, lemma_div_pos_is_pos,
    lemma_fundamental_div_mod, lemma_fundamental_div_mod_converse, lemma_mod_bound,
};
use vstd::arithmetic::mul::lemma_mul_inequality;
use crate::rank::MatchInfo;

verus! {

/// A ranked, highlight-annotated view of one candidate for the current
/// query: the rendered text, the candidate's position in the unfiltered
/// source list, and the match that put it here.
pub struct Item {
    pub text: String,
    pub item_key: usize,
    pub match_info: MatchInfo,
}

/// What one round of interaction hands back to the caller.
#[derive(Clone, Copy, PartialEq, Eq, Structural, Debug)]
pub enum SelectCommand {
    /// An alphanumeric character was typed: the caller extends the query.
    CharInput { ch: char },
    /// The selected row was confirmed.
    Select { item_key: usize },
    /// Any other character: the caller decides its effect.
    Command { ch: char, item_key: usize },
    /// The session was cancelled.
    Quit,
}

/// One terminal key event, as the selection engine understands it.
#[derive(Clone, Copy, PartialEq, Eq, Structural, Debug)]
pub enum Key {
    ArrowUp,
    ArrowDown,
    ArrowLeft,
    ArrowRight,
    Enter,
    Escape,
    Char(char),
    Other,
}

/// The navigation state of one interactive session: the selected row
/// (none until the first navigation key) and the page in view.
#[derive(Clone, Copy, Debug)]
pub struct NavState {
    pub sel: Option<usize>,
    pub page: usize,
}

/// What `char::is_alphanumeric` returns: membership in the Unicode
/// letter and number categories, a function of the character alone.
pub uninterp spec fn is_alnum(c: char) -> bool;

/// Relies on `char::is_alphanumeric` to split typed characters into
/// query input and command keys.
#[verifier::external_body]
fn char_is_alphanumeric(c: char) -> (r: bool)
    ensures
        r == is_alnum(c),
{
    c.is_alphanumeric()
}

/// Number of pages a list of `len` items occupies at `cap` rows per
/// page; at least 1 even for an empty list.
pub open spec fn spec_page_count(len: int, cap: int) -> int {
    len / cap + 1
}

/// First index of the page in view.
pub open spec fn spec_page_start(page: int, cap: int) -> int {
    page * cap
}

/// One past the last index of the page in view, clamped to the list.
pub open spec fn spec_page_end(page: int, cap: int, len: int) -> int {
    if page * cap + cap < len {
        page * cap + cap
    } else {
        len
    }
}

/// Well-formedness of a navigation state against a list of `len` items
/// paged at `cap` rows: the selection, when defined, is a valid index,
/// and the page in view exists.
pub open spec fn nav_inv(st: NavState, len: int, cap: int) -> bool {
    &&& match st.sel {
        Some(s) => 0 <= s < len,
        None => true,
    }
    &&& 0 <= st.page < spec_page_count(len, cap)
}

/// Selection after a down-arrow: one step forward, wrapping; the first
/// row when nothing was selected yet.
pub open spec fn down_index(sel: Option<usize>, len: int) -> int {
    match sel {
        None => 0,
        Some(v) => (v + 1) % len,
    }
}

/// Selection after an up-arrow: one step back, wrapping; the last row
/// when nothing was selected yet.
pub open spec fn up_index(sel: Option<usize>, len: int) -> int {
    match sel {
        None => len - 1,
        Some(v) => (v + len - 1) % len,
    }
}

/// Page after a left-arrow: the previous page, wrapping to the last.
pub open spec fn left_page(page: int, pages: int) -> int {
    if page == 0 {
        pages - 1
    } else {
        page - 1
    }
}

/// Page after a right-arrow: the next page, wrapping to the first.
pub open spec fn right_page(page: int, pages: int) -> int {
    if page == pages - 1 {
        0
    } else {
        page + 1
    }
}

/// Selection after a page jump: the first row of the new page, clamped
/// into the list when the trailing page has fewer rows than `cap`.
pub open spec fn jump_index(page: int, cap: int, len: int) -> int {
    if page * cap < len {
        page * cap
    } else {
        len - 1
    }
}

/// The navigation state after one key event. Arrows move the selection
/// or the page; on an empty list every key leaves the state unchanged;
/// all other keys never move the state. After an up or down arrow the
/// page is re-derived as the page containing the selection.
pub open spec fn spec_step(st: NavState, key: Key, len: int, cap: int, paged: bool) -> NavState {
    let pages = spec_page_count(len, cap);
    match key {
        Key::ArrowDown => {
            if len == 0 {
                st
            } else {
                let s = down_index(st.sel, len);
                NavState { sel: Some(s as usize), page: (s / cap) as usize }
            }
        },
        Key::ArrowUp => {
            if len == 0 {
                st
            } else {
                let s = up_index(st.sel, len);
                NavState { sel: Some(s as usize), page: (s / cap) as usize }
            }
        },
        Key::ArrowLeft => {
            if !paged || len == 0 {
                st
            } else {
                let p = left_page(st.page as int, pages);
                NavState { sel: Some(jump_index(p, cap, len) as usize), page: p as usize }
            }
        },
        Key::ArrowRight => {
            if !paged || len == 0 {
                st
            } else {
                let p = right_page(st.page as int, pages);
                NavState { sel: Some(jump_index(p, cap, len) as usize), page: p as usize }
            }
        },
        _ => st,
    }
}

/// The item keys of a ranked list, in ranking order.
pub open spec fn item_keys(items: Seq<Item>) -> Seq<usize> {
    items.map_values(|it: Item| it.item_key)
}

/// The command one key event emits, if any. Enter confirms the selected
/// row; Escape cancels only when quitting is allowed; an alphanumeric
/// character becomes query input; any other character becomes a command
/// on the selected row. Keys that need a selected row emit nothing
/// while no valid row is selected.
pub open spec fn spec_command(
    st: NavState,
    key: Key,
    keys: Seq<usize>,
    allow_quit: bool,
) -> Option<SelectCommand> {
    match key {
        Key::Enter => match st.sel {
            Some(s) => if (s as int) < keys.len() {
                Some(SelectCommand::Select { item_key: keys[s as int] })
            } else {
                None
            },
            None => None,
        },
        Key::Escape => if allow_quit {
            Some(SelectCommand::Quit)
        } else {
            None
        },
        Key::Char(ch) => if is_alnum(ch) {
            Some(SelectCommand::CharInput { ch })
        } else {
            match st.sel {
                Some(s) => if (s as int) < keys.len() {
                    Some(SelectCommand::Command { ch, item_key: keys[s as int] })
                } else {
                    None
                },
                None => None,
            }
        },
        _ => None,
    }
}

/// One key event preserves well-formedness of the navigation state.
pub proof fn lemma_step_preserves_inv(st: NavState, key: Key, len: int, cap: int, paged: bool)
    requires
        cap >= 1,
        0 <= len < usize::MAX,
        nav_inv(st, len, cap),
    ensures
        nav_inv(spec_step(st, key, len, cap, paged), len, cap),
{
    let pages = spec_page_count(len, cap);
    if len > 0 {
        match key {
            Key::ArrowDown | Key::ArrowUp => {
                let s = if key is ArrowDown {
                    down_index(st.sel, len)
                } else {
                    up_index(st.sel, len)
                };
                match st.sel {
                    None => {},
                    Some(v) => {
                        lemma_mod_bound(v + 1, len);
                        lemma_mod_bound(v + len - 1, len);
                    },
                }
                assert(0 <= s < len);
                lemma_div_is_ordered(s, len, cap);
                assert(0 <= s / cap < pages);
            },
            Key::ArrowLeft | Key::ArrowRight => {
                if paged {
                    let p = if key is ArrowLeft {
                        left_page(st.page as int, pages)
                    } else {
                        right_page(st.page as int, pages)
                    };
                    assert(0 <= p < pages);
                    assert(0 <= jump_index(p, cap, len) < len);
                }
            },
            _ => {},
        }
    }
}

/// The navigation state after a whole sequence of key events, applied
/// in order.
pub open spec fn run_keys(st: NavState, keys: Seq<Key>, len: int, cap: int, paged: bool) -> NavState
    decreases keys.len(),
{
    if keys.len() == 0 {
        st
    } else {
        run_keys(spec_step(st, keys[0], len, cap, paged), keys.drop_first(), len, cap, paged)
    }
}

/// Index bound: starting from any well-formed state of a non-empty
/// list, after any sequence of key events the state is still
/// well-formed; in particular, whenever a selection is defined it
/// satisfies `0 <= selected_index < len`. Since this holds for every
/// key sequence, it holds for every prefix too, so the bound holds
/// after every single event.
pub proof fn lemma_index_bound(st: NavState, keys: Seq<Key>, len: int, cap: int, paged: bool)
    requires
        cap >= 1,
        1 <= len < usize::MAX,
        nav_inv(st, len, cap),
    ensures
        nav_inv(run_keys(st, keys, len, cap, paged), len, cap),
        match run_keys(st, keys, len, cap, paged).sel {
            Some(s) => 0 <= s < len,
            None => true,
        },
    decreases keys.len(),
{
    if keys.len() > 0 {
        lemma_step_preserves_inv(st, keys[0], len, cap, paged);
        lemma_index_bound(
            spec_step(st, keys[0], len, cap, paged),
            keys.drop_first(),
            len,
            cap,
            paged,
        );
    }
}

/// Page consistency: after a navigation transition the current page is
/// `floor(selected_index / capacity)` and the rendered slice
/// `[page * cap, min(page * cap + cap, len))` contains the selection.
/// The one family of inputs left out: a page jump that lands on the
/// trailing page at the very moment that page is empty, which happens
/// only when the capacity divides the item count exactly; there the
/// engine clamps the selection into the list and the page in view keeps
/// its deliberately chosen wraparound value instead.
pub proof fn lemma_page_consistency(st: NavState, key: Key, len: int, cap: int, paged: bool)
    requires
        cap >= 1,
        1 <= len < usize::MAX,
        nav_inv(st, len, cap),
        key is ArrowUp || key is ArrowDown || key is ArrowLeft || key is ArrowRight,
        key is ArrowLeft || key is ArrowRight ==> paged && spec_step(
            st,
            key,
            len,
            cap,
            paged,
        ).page * cap < len,
    ensures
        ({
            let st2 = spec_step(st, key, len, cap, paged);
            &&& st2.sel is Some
            &&& st2.page == st2.sel->0 as int / cap
            &&& spec_page_start(st2.page as int, cap) <= st2.sel->0 < spec_page_end(
                st2.page as int,
                cap,
                len,
            )
        }),
{
    let st2 = spec_step(st, key, len, cap, paged);
    lemma_step_preserves_inv(st, key, len, cap, paged);
    match key {
        Key::ArrowDown | Key::ArrowUp => {
            let s = if key is ArrowDown {
                down_index(st.sel, len)
            } else {
                up_index(st.sel, len)
            };
            match st.sel {
                None => {},
                Some(v) => {
                    lemma_mod_bound(v + 1, len);
                    lemma_mod_bound(v + len - 1, len);
                },
            }
            assert(0 <= s < len);
            lemma_div_pos_is_pos(s, cap);
            lemma_div_nonincreasing(s, cap);
            lemma_fundamental_div_mod(s, cap);
            lemma_mod_bound(s, cap);
            assert(st2.sel->0 as int == s);
            assert(st2.page as int == s / cap);
            assert(cap * (s / cap) + s % cap == s);
            assert((s / cap) * cap == cap * (s / cap)) by (nonlinear_arith);
            assert(spec_page_start(st2.page as int, cap) <= st2.sel->0);
            assert(st2.sel->0 < spec_page_end(st2.page as int, cap, len));
        },
        Key::ArrowLeft | Key::ArrowRight => {
            let p = st2.page as int;
            assert(p * cap < len);
            assert(st2.sel->0 == p * cap);
            lemma_fundamental_div_mod_converse(p * cap, cap, p, 0);
        },
        _ => {},
    }
}

/// Wraparound: with paging on, a left-arrow on the first page moves the
/// view to the last page, and a right-arrow on the last page moves it
/// back to the first.
pub proof fn lemma_wraparound(st: NavState, len: int, cap: int)
    requires
        cap >= 1,
        1 <= len < usize::MAX,
        nav_inv(st, len, cap),
    ensures
        st.page == 0 ==> spec_step(st, Key::ArrowLeft, len, cap, true).page == spec_page_count(
            len,
            cap,
        ) - 1,
        st.page == spec_page_count(len, cap) - 1 ==> spec_step(
            st,
            Key::ArrowRight,
            len,
            cap,
            true,
        ).page == 0,
{
}

/// The first row of an existing page lies inside the list unless the
/// page is the trailing remainder page; in particular `page * cap` never
/// exceeds the list length.
pub proof fn lemma_page_start_in_list(page: int, len: int, cap: int)
    requires
        cap >= 1,
        len >= 0,
        0 <= page < spec_page_count(len, cap),
    ensures
        page * cap <= len,
{
    lemma_mul_inequality(page, len / cap, cap);
    lemma_fundamental_div_mod(len, cap);
    lemma_mod_bound(len, cap);
}

/// Renders a selection menu: the configuration of one interactive
/// session, assembled once before the session starts.
pub struct Select {
    pub default: Option<usize>,
    pub items: Vec<Item>,
    pub prompt: Option<String>,
    pub clear: bool,
    pub paged: bool,
    pub page_size: usize,
}

impl Select {
    /// A selector with no items, no prompt, clearing enabled and paging
    /// disabled.
    pub fn new() -> (s: Select)
        ensures
            s.default is None,
            s.items@.len() == 0,
            s.prompt is None,
            s.clear,
            !s.paged,
            s.page_size == 0,
    {
        Select {
            default: None,
            items: Vec::new(),
            prompt: None,
            clear: true,
            paged: false,
            page_size: 0,
        }
    }

    /// Enables or disables paging; enabling it sets the page size.
    pub fn paged(&mut self, val: bool)
        ensures
            final(self).paged == val,
            final(self).page_size == if val { 10usize } else { old(self).page_size },
            final(self).default == old(self).default,
            final(self).items == old(self).items,
            final(self).prompt == old(self).prompt,
            final(self).clear == old(self).clear,
    {
        self.paged = val;
        if self.paged {
            self.page_size = 10;
        }
    }

    /// Sets the clear behavior of the menu. The default is to clear it.
    pub fn clear(&mut self, val: bool)
        ensures
            final(self).clear == val,
            final(self).default == old(self).default,
            final(self).items == old(self).items,
            final(self).prompt == old(self).prompt,
            final(self).paged == old(self).paged,
            final(self).page_size == old(self).page_size,
    {
        self.clear = val;
    }

    /// Sets the row selected before any navigation key.
    pub fn default(&mut self, val: usize)
        ensures
            final(self).default == Some(val),
            final(self).items == old(self).items,
            final(self).prompt == old(self).prompt,
            final(self).clear == old(self).clear,
            final(self).paged == old(self).paged,
            final(self).page_size == old(self).page_size,
    {
        self.default = Some(val);
    }

    /// Adds a single item to the selector.
    pub fn item(&mut self, item: Item)
        ensures
            final(self).items@ == old(self).items@.push(item),
            final(self).default == old(self).default,
            final(self).prompt == old(self).prompt,
            final(self).clear == old(self).clear,
            final(self).paged == old(self).paged,
            final(self).page_size == old(self).page_size,
    {
        self.items.push(item);
    }

    /// Adds multiple items to the selector.
    pub fn items(&mut self, items: Vec<Item>)
        ensures
            final(self).items@ == old(self).items@ + items@,
            final(self).default == old(self).default,
            final(self).prompt == old(self).prompt,
            final(self).clear == old(self).clear,
            final(self).paged == old(self).paged,
            final(self).page_size == old(self).page_size,
    {
        let ghost orig = items@;
        let mut rest = items;
        while rest.len() > 0
            invariant
                self.items@ + rest@ == old(self).items@ + orig,
                self.default == old(self).default,
                self.prompt == old(self).prompt,
                self.clear == old(self).clear,
                self.paged == old(self).paged,
                self.page_size == old(self).page_size,
            decreases rest@.len(),
        {
            let ghost items_before = self.items@;
            let ghost rest_before = rest@;
            let it = rest.remove(0);
            self.items.push(it);
            proof {
                assert(items_before.push(rest_before[0]) + rest_before.remove(0)
                    =~= items_before + rest_before);
            }
        }
        proof {
            assert(self.items@ + rest@ =~= self.items@);
        }
    }

    /// The selection in force before any navigation key: the configured
    /// default if it points at an existing row, none otherwise.
    pub open spec fn spec_start_sel(&self) -> Option<usize> {
        match self.default {
            Some(d) => if (d as int) < self.items@.len() {
                Some(d)
            } else {
                None
            },
            None => None,
        }
    }

    /// The navigation state a session starts in: the configured default
    /// selection when valid, and the first page.
    pub fn start_state(&self) -> (st: NavState)
        ensures
            st.page == 0,
            st.sel == self.spec_start_sel(),
            forall|cap: int| cap >= 1 ==> nav_inv(st, self.items@.len() as int, cap),
    {
        let len = self.items.len();
        let sel = match self.default {
            Some(d) => if d < len {
                Some(d)
            } else {
                None
            },
            None => None,
        };
        NavState { sel, page: 0 }
    }

    /// Rows per page for a terminal of `term_rows` rows: the configured
    /// page size clamped to the rows available below the prompt when
    /// paging is on, the whole list otherwise; always at least 1, so a
    /// page count exists even for an empty list.
    pub open spec fn spec_capacity(&self, term_rows: int) -> int {
        let raw = if self.paged {
            let avail = if term_rows >= 1 { term_rows - 1 } else { 0 };
            if self.page_size as int <= avail {
                self.page_size as int
            } else {
                avail
            }
        } else {
            self.items@.len() as int
        };
        if raw < 1 {
            1
        } else {
            raw
        }
    }

    /// Computes the page capacity for the given terminal height.
    pub fn capacity(&self, term_rows: usize) -> (cap: usize)
        ensures
            cap == self.spec_capacity(term_rows as int),
            cap >= 1,
    {
        let raw: usize = if self.paged {
            let avail: usize = if term_rows >= 1 { term_rows - 1 } else { 0 };
            if self.page_size <= avail { self.page_size } else { avail }
        } else {
            self.items.len()
        };
        if raw < 1 { 1 } else { raw }
    }

    /// Number of pages the current item list occupies.
    pub fn page_count(&self, cap: usize) -> (n: usize)
        requires
            cap >= 1,
            self.items@.len() < usize::MAX,
        ensures
            n == spec_page_count(self.items@.len() as int, cap as int),
            n >= 1,
    {
        proof {
            lemma_div_is_ordered(self.items@.len() as int, usize::MAX - 1, cap as int);
        }
        self.items.len() / cap + 1
    }

    /// Applies one key event to the navigation state and returns the
    /// command it emits, if any. The state moves exactly as `spec_step`
    /// says and the command is exactly what `spec_command` says; the
    /// state stays well-formed, so the selected row is always a valid
    /// index while items exist.
    pub fn step(&self, st: &mut NavState, key: Key, cap: usize, allow_quit: bool) -> (cmd: Option<
        SelectCommand,
    >)
        requires
            cap >= 1,
            self.items@.len() < usize::MAX,
            nav_inv(*old(st), self.items@.len() as int, cap as int),
        ensures
            *final(st) == spec_step(
                *old(st),
                key,
                self.items@.len() as int,
                cap as int,
                self.paged,
            ),
            cmd == spec_command(*old(st), key, item_keys(self.items@), allow_quit),
            nav_inv(*final(st), self.items@.len() as int, cap as int),
    {
        proof {
            lemma_step_preserves_inv(
                *old(st),
                key,
                self.items@.len() as int,
                cap as int,
                self.paged,
            );
        }
        let len = self.items.len();
        match key {
            Key::ArrowDown => {
                if len > 0 {
                    let s: usize = match st.sel {
                        None => 0,
                        Some(v) => (v + 1) % len,
                    };
                    st.sel = Some(s);
                    st.page = s / cap;
                }
                None
            },
            Key::ArrowUp => {
                if len > 0 {
                    let s: usize = match st.sel {
                        None => len - 1,
                        Some(v) => if v == 0 {
                            len - 1
                        } else {
                            v - 1
                        },
                    };
                    proof {
                        if let Some(v) = old(st).sel {
                            lemma_fundamental_div_mod_converse(
                                v + len - 1,
                                len as int,
                                if v == 0 { 0int } else { 1int },
                                s as int,
                            );
                        }
                    }
                    st.sel = Some(s);
                    st.page = s / cap;
                }
                None
            },
            Key::ArrowLeft => {
                if self.paged && len > 0 {
                    let pages = len / cap + 1;
                    let p: usize = if st.page == 0 { pages - 1 } else { st.page - 1 };
                    proof {
                        lemma_page_start_in_list(
                            p as int,
                            len as int,
                            cap as int,
                        );
                    }
                    let start: usize = p * cap;
                    let s: usize = if start < len { start } else { len - 1 };
                    st.page = p;
                    st.sel = Some(s);
                }
                None
            },
            Key::ArrowRight => {
                if self.paged && len > 0 {
                    let pages = len / cap + 1;
                    let p: usize = if st.page == pages - 1 { 0 } else { st.page + 1 };
                    proof {
                        lemma_page_start_in_list(
                            p as int,
                            len as int,
                            cap as int,
                        );
                    }
                    let start: usize = p * cap;
                    let s: usize = if start < len { start } else { len - 1 };
                    st.page = p;
                    st.sel = Some(s);
                }
                None
            },
            Key::Enter => {
                match st.sel {
                    Some(s) => if s < len {
                        Some(SelectCommand::Select { item_key: self.items[s].item_key })
                    } else {
                        None
                    },
                    None => None,
                }
            },
            Key::Escape => {
                if allow_quit {
                    Some(SelectCommand::Quit)
                } else {
                    None
                }
            },
            Key::Char(ch) => {
                if char_is_alphanumeric(ch) {
                    Some(SelectCommand::CharInput { ch })
                } else {
                    match st.sel {
                        Some(s) => if s < len {
                            Some(SelectCommand::Command { ch, item_key: self.items[s].item_key })
                        } else {
                            None
                        },
                        None => None,
                    }
                }
            },
            Key::Other => None,
        }
    }

    /// The rows of the page in view, in order, each with its text and
    /// whether it is the selected row. Exactly the slice
    /// `[page * cap, min(page * cap + cap, len))` of the item list is
    /// returned, so the rendered window is the one that contains the
    /// selection whenever the state is the result of a navigation key.
    pub fn visible_rows(&self, st: &NavState, cap: usize) -> (rows: Vec<(String, bool)>)
        requires
            cap >= 1,
            self.items@.len() < usize::MAX,
            nav_inv(*st, self.items@.len() as int, cap as int),
        ensures
            ({
                let start = spec_page_start(st.page as int, cap as int);
                let end = spec_page_end(st.page as int, cap as int, self.items@.len() as int);
                &&& rows@.len() == end - start
                &&& forall|k: int|
                    0 <= k < rows@.len() ==> {
                        &&& rows@[k].0@ == self.items@[start + k].text@
                        &&& (rows@[k].1 <==> st.sel == Some((start + k) as usize))
                    }
            }),
    {
        let len = self.items.len();
        proof {
            lemma_page_start_in_list(st.page as int, len as int, cap as int);
        }
        let start: usize = st.page * cap;
        let end: usize = if cap < len - start { start + cap } else { len };
        let mut rows: Vec<(String, bool)> = Vec::new();
        let mut i: usize = start;
        while i < end
            invariant
                start <= i <= end <= len,
                len == self.items@.len(),
                end == spec_page_end(st.page as int, cap as int, len as int),
                start == spec_page_start(st.page as int, cap as int),
                rows@.len() == i - start,
                forall|k: int|
                    0 <= k < rows@.len() ==> {
                        &&& rows@[k].0@ == self.items@[start + k].text@
                        &&& (rows@[k].1 <==> st.sel == Some((start + k) as usize))
                    },
            decreases end - i,
        {
            let selected = match st.sel {
                Some(s) => s == i,
                None => false,
            };
            rows.push((self.items[i].text.clone(), selected));
            i += 1;
        }
        rows
    }

    /// Prefaces the menu with a prompt. When a prompt is set, a
    /// confirmation line is also printed after the selection.
    pub fn with_prompt(&mut self, prompt: &str)
        ensures
            final(self).prompt matches Some(p) && p@ == prompt@,
            final(self).default == old(self).default,
            final(self).items == old(self).items,
            final(self).clear == old(self).clear,
            final(self).paged == old(self).paged,
            final(self).page_size == old(self).page_size,
    {
        self.prompt = Some(prompt.to_owned());
    }
}

} // verus!
