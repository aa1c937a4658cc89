//! The state of the interactive view: the regions of one process, which of
//! them is selected, and which rows the table shows.
use vstd::prelude::*;
use crate::parser::{parse_smaps, smaps_regions};
use crate::summary::{
    count_suspicious, sum_private_dirty, sum_rss, suspicious_in, total_private_dirty,
    word_modulus,
};
use crate::text::{decimal, push_decimal};
use crate::types::{MemoryRegion, models};

verus! {

pub struct App {
    pub pid: u32,
    pub regions: Vec<MemoryRegion>,
    pub scroll: usize,
    pub selected: usize,
    pub visible_rows: usize,
    pub should_quit: bool,
    pub error: Option<String>,
}

/// The message shown when the smaps text of `pid` could not be read, for the
/// given reason.
pub open spec fn failure_message(pid: u32, reason: Seq<char>) -> Seq<char> {
    "Failed to read process "@ + decimal(pid as nat) + ": "@ + reason
}

/// The index of the last region of a list of `len` regions, or 0 for none.
pub open spec fn last_index(len: nat) -> nat {
    if len == 0 {
        0
    } else {
        (len - 1) as nat
    }
}

/// Where (selected, scroll) go when the selection moves one row down: the
/// selection moves while it is above the last region, and the table scrolls
/// by one row when the selection would leave its bottom.
pub open spec fn down_position(len: nat, selected: nat, scroll: nat, rows: nat) -> (nat, nat) {
    if selected < last_index(len) {
        let s = selected + 1;
        (s, if s >= scroll + rows {
            scroll + 1
        } else {
            scroll
        })
    } else {
        (selected, scroll)
    }
}

/// Where (selected, scroll) go when the selection moves one row up: the
/// selection moves while it is below the first region, and the table scrolls
/// by one row when the selection would leave its top.
pub open spec fn up_position(selected: nat, scroll: nat) -> (nat, nat) {
    if selected > 0 {
        let s = (selected - 1) as nat;
        (s, if s < scroll {
            (scroll - 1) as nat
        } else {
            scroll
        })
    } else {
        (selected, scroll)
    }
}

impl App {
    /// A view of process `pid` with no regions read yet and a table of 20 rows.
    pub fn new(pid: u32) -> (app: App)
        ensures
            app.pid == pid,
            app.regions@.len() == 0,
            app.scroll == 0,
            app.selected == 0,
            app.visible_rows == 20,
            !app.should_quit,
            app.error is None,
    {
        App {
            pid,
            regions: Vec::new(),
            scroll: 0,
            selected: 0,
            visible_rows: 20,
            should_quit: false,
            error: None,
        }
    }

    /// Takes in a new reading of the process's smaps text: the text, or why
    /// it could not be read. A text replaces the regions and clears the
    /// error; a failure keeps the regions and records the error message.
    pub fn refresh(&mut self, reading: Result<String, String>)
        ensures
            final(self).pid == old(self).pid,
            final(self).scroll == old(self).scroll,
            final(self).selected == old(self).selected,
            final(self).visible_rows == old(self).visible_rows,
            final(self).should_quit == old(self).should_quit,
            match reading {
                Ok(text) => {
                    &&& models(final(self).regions@) == smaps_regions(text@)
                    &&& final(self).error is None
                },
                Err(reason) => {
                    &&& final(self).regions@ == old(self).regions@
                    &&& final(self).error matches Some(m) && m@ == failure_message(
                        old(self).pid,
                        reason@,
                    )
                },
            },
    {
        match reading {
            Ok(text) => {
                self.regions = parse_smaps(text.as_str());
                self.error = None;
            },
            Err(reason) => {
                let mut m = String::new();
                m.append("Failed to read process ");
                push_decimal(&mut m, self.pid as u64);
                m.append(": ");
                m.append(reason.as_str());
                assert(m@ =~= failure_message(self.pid, reason@));
                self.error = Some(m);
            },
        }
    }

    /// Moves the selection one row down, scrolling the table where the
    /// selection would leave its bottom.
    pub fn scroll_down(&mut self)
        requires
            old(self).selected < last_index(old(self).regions@.len()) ==> old(self).scroll
                + old(self).visible_rows <= usize::MAX,
        ensures
            (final(self).selected as nat, final(self).scroll as nat) == down_position(
                old(self).regions@.len(),
                old(self).selected as nat,
                old(self).scroll as nat,
                old(self).visible_rows as nat,
            ),
            final(self).pid == old(self).pid,
            final(self).regions@ == old(self).regions@,
            final(self).visible_rows == old(self).visible_rows,
            final(self).should_quit == old(self).should_quit,
            final(self).error == old(self).error,
    {
        let max = self.regions.len().saturating_sub(1);
        if self.selected < max {
            self.selected += 1;
            if self.selected >= self.scroll + self.visible_rows {
                self.scroll += 1;
            }
        }
    }

    /// Moves the selection one row up, scrolling the table where the
    /// selection would leave its top.
    pub fn scroll_up(&mut self)
        ensures
            (final(self).selected as nat, final(self).scroll as nat) == up_position(
                old(self).selected as nat,
                old(self).scroll as nat,
            ),
            final(self).pid == old(self).pid,
            final(self).regions@ == old(self).regions@,
            final(self).visible_rows == old(self).visible_rows,
            final(self).should_quit == old(self).should_quit,
            final(self).error == old(self).error,
    {
        if self.selected > 0 {
            self.selected -= 1;
            if self.selected < self.scroll {
                self.scroll -= 1;
            }
        }
    }

    /// The resident memory of all regions, in kB.
    pub fn total_rss(&self) -> (t: u64)
        ensures
            t == sum_rss(self.regions@) % word_modulus(),
    {
        crate::summary::total_rss(self.regions.as_slice())
    }

    /// The private dirty memory of all regions, in kB.
    pub fn total_private(&self) -> (t: u64)
        ensures
            t == sum_private_dirty(self.regions@) % word_modulus(),
    {
        total_private_dirty(self.regions.as_slice())
    }

    /// How many regions are readable, writable and executable at once.
    pub fn suspicious_count(&self) -> (n: usize)
        ensures
            n == suspicious_in(self.regions@),
    {
        count_suspicious(self.regions.as_slice())
    }

    /// Fits the table to an area of `height` terminal rows, three of which go
    /// to its border and its header row.
    pub fn fit_table_height(&mut self, height: u16)
        ensures
            final(self).visible_rows == (if height >= 3 {
                height - 3
            } else {
                0
            }),
            final(self).pid == old(self).pid,
            final(self).regions@ == old(self).regions@,
            final(self).scroll == old(self).scroll,
            final(self).selected == old(self).selected,
            final(self).should_quit == old(self).should_quit,
            final(self).error == old(self).error,
    {
        self.visible_rows = height.saturating_sub(3) as usize;
    }

    /// The range of regions that the table renders: from the first visible
    /// row to 20 rows past the last, cut at the end of the list.
    pub fn visible_range(&self) -> (r: (usize, usize))
        requires
            self.scroll + self.visible_rows + 20 <= usize::MAX,
            self.scroll <= self.regions@.len(),
        ensures
            r.0 == self.scroll,
            r.1 == (if self.regions@.len() < self.scroll + self.visible_rows + 20 {
                self.regions@.len() as int
            } else {
                self.scroll + self.visible_rows + 20
            }),
            r.0 <= r.1 <= self.regions@.len(),
    {
        let wanted = self.scroll + self.visible_rows + 20;
        let end = if self.regions.len() < wanted {
            self.regions.len()
        } else {
            wanted
        };
        (self.scroll, end)
    }
}


// ---------------------------------------------------------------------------
// Laws of the selection

/// The selection stands inside the table: at or below its first row and,
/// where the table has rows, above its bottom.
pub open spec fn in_window(selected: nat, scroll: nat, rows: nat) -> bool {
    &&& scroll <= selected
    &&& rows > 0 ==> selected < scroll + rows
}

/// Moving the selection down or up keeps it inside the table.
pub proof fn lemma_moves_keep_window(len: nat, selected: nat, scroll: nat, rows: nat)
    requires
        in_window(selected, scroll, rows),
    ensures
        ({
            let (s, c) = down_position(len, selected, scroll, rows);
            in_window(s, c, rows)
        }),
        ({
            let (s, c) = up_position(selected, scroll);
            in_window(s, c, rows)
        }),
{
}

/// Moving the selection keeps it on the list: a selection at or above the
/// last region stays so.
pub proof fn lemma_moves_keep_selection_on_list(len: nat, selected: nat, scroll: nat, rows: nat)
    requires
        selected <= last_index(len),
    ensures
        down_position(len, selected, scroll, rows).0 <= last_index(len),
        up_position(selected, scroll).0 <= last_index(len),
{
}

/// Moving up undoes moving down, and moving down undoes moving up, as far as
/// the selection goes: where the first move happens, the second brings the
/// selection back to where it was.
pub proof fn lemma_moves_undo(len: nat, selected: nat, scroll: nat, rows: nat)
    ensures
        selected < last_index(len) ==> {
            let (s, c) = down_position(len, selected, scroll, rows);
            up_position(s, c).0 == selected
        },
        0 < selected <= last_index(len) ==> {
            let (s, c) = up_position(selected, scroll);
            down_position(len, s, c, rows).0 == selected
        },
{
}

/// Within the table, moving down then up gives the table back its first
/// row too, unless the move down scrolled it.
pub proof fn lemma_down_up_keeps_scroll(len: nat, selected: nat, scroll: nat, rows: nat)
    requires
        in_window(selected, scroll, rows),
        selected < last_index(len),
        selected + 1 < scroll + rows,
    ensures
        ({
            let (s, c) = down_position(len, selected, scroll, rows);
            up_position(s, c) == (selected, scroll)
        }),
{
}

} // verus!
