//! Navigation state and the top-level command state machine: the current
//! directory (as path components), the entry list with its selection and
//! scroll offset, the stored preview, and the browsing / suspended /
//! terminated mode.

use vstd::prelude::*;
use vstd::string::StrSliceExecFns;
use crate::entry::{
    build_entries,
    keys_of,
    keys_sorted,
    sort_keys,
    visible_keys,
    ChildInfo,
    Entry,
    EntryKind,
};
use crate::entry::lemma_sort_keys_sorted;
use crate::preview::{generate_preview, preview_matches, PathProbe, PreviewResult};
use crate::scroll::{compute_scroll, spec_scroll};

verus! {

/// Top-level state of the browser.
#[derive(Clone, Copy, PartialEq, Eq, Structural, Debug)]
pub enum Mode {
    /// Normal operation; all commands are honoured.
    Browsing,
    /// An external editor runs; the terminal belongs to it.
    Suspended,
    /// Final state after quitting; no command does anything.
    Terminated,
}

/// A discrete command from the keyboard boundary.
#[derive(Clone, Copy, PartialEq, Eq, Structural, Debug)]
pub enum Command {
    MoveUp,
    MoveDown,
    Activate,
    Quit,
}

/// What the caller must do after a command was applied.
#[derive(Debug)]
pub enum Action {
    /// Nothing to do.
    Ignored,
    /// The selection moved: refresh the preview and redraw.
    Redraw,
    /// The activation targets the directory given by `dir`: read it and
    /// hand the outcome to `apply_listing`, which commits the switch only
    /// on success.
    Relist { dir: Vec<String> },
    /// Run the editor on the named file of the current directory, then call
    /// `editor_returned` and re-list the current directory.
    OpenFile { name: String },
}

/// A directory name loses its trailing `/` when it becomes a path
/// component.
pub open spec fn strip_slash(n: Seq<char>) -> Seq<char> {
    if n.len() > 0 && n.last() == '/' {
        n.drop_last()
    } else {
        n
    }
}

fn strip_trailing_slash(name: &String) -> (r: String)
    ensures
        r@ == strip_slash(name@),
{
    let len = name.as_str().unicode_len();
    if len > 0 && name.as_str().get_char(len - 1) == '/' {
        let r = name.as_str().substring_char(0, len - 1).to_owned();
        proof {
            assert(name@.subrange(0, len - 1) =~= name@.drop_last());
        }
        r
    } else {
        name.clone()
    }
}

/// Copy a component path; the copy holds equal strings.
fn clone_components(v: &Vec<String>) -> (r: Vec<String>)
    ensures
        r@ == v@,
{
    let mut r: Vec<String> = Vec::new();
    let mut i: usize = 0;
    while i < v.len()
        invariant
            i <= v@.len(),
            r@ == v@.take(i as int),
        decreases v@.len() - i,
    {
        r.push(v[i].clone());
        proof {
            assert(r@ =~= v@.take(i + 1));
        }
        i = i + 1;
    }
    proof {
        assert(v@.take(v@.len() as int) =~= v@);
    }
    r
}

/// The navigation state of the browser.
pub struct App {
    /// Components of the current absolute directory, root downwards.
    pub current_dir: Vec<String>,
    /// The listing of `current_dir`: the parent sentinel first, then the
    /// visible children sorted by name.
    pub entries: Vec<Entry>,
    /// Index of the selected entry.
    pub selected: usize,
    /// Scroll offset of the entry list viewport.
    pub scroll: usize,
    /// The preview of the selected entry, once one was generated.
    pub preview: Option<PreviewResult>,
    pub mode: Mode,
}

impl App {
    /// Invariant of every reachable state: the listing holds at least the
    /// parent sentinel, which comes first, the rest is sorted by name, and
    /// the selection is in range.
    pub open spec fn wf(self) -> bool {
        &&& self.entries@.len() >= 1
        &&& self.entries@[0].kind is Parent
        &&& self.entries@[0].name@ == ".."@
        &&& keys_sorted(keys_of(self.entries@.skip(1)))
        &&& self.selected < self.entries@.len()
    }

    /// Start browsing the given directory with the given raw children.
    pub fn new(current_dir: Vec<String>, children: Vec<ChildInfo>) -> (app: App)
        ensures
            app.wf(),
            app.current_dir == current_dir,
            keys_of(app.entries@.skip(1)) == sort_keys(visible_keys(children@)),
            app.selected == 0,
            app.scroll == 0,
            app.preview is None,
            app.mode is Browsing,
    {
        let entries = build_entries(children);
        proof {
            lemma_sort_keys_sorted(visible_keys(children@));
        }
        App {
            current_dir,
            entries,
            selected: 0,
            scroll: 0,
            preview: None,
            mode: Mode::Browsing,
        }
    }

    /// Commit a directory switch: on a successful listing the browser
    /// moves to `dir` with the fresh entries and the selection and scroll
    /// reset; a failed listing leaves the state entirely unchanged — the
    /// switch is rejected silently and the prior state stays navigable.
    pub fn apply_listing(&mut self, dir: Vec<String>, listing: Option<Vec<ChildInfo>>)
        requires
            old(self).wf(),
        ensures
            final(self).wf(),
            (listing matches Some(children) ==> {
                &&& final(self).current_dir == dir
                &&& keys_of(final(self).entries@.skip(1)) == sort_keys(visible_keys(children@))
                &&& final(self).selected == 0
                &&& final(self).scroll == 0
                &&& final(self).mode == old(self).mode
                &&& final(self).preview == old(self).preview
            }),
            listing is None ==> *final(self) == *old(self),
    {
        match listing {
            Some(children) => {
                proof {
                    lemma_sort_keys_sorted(visible_keys(children@));
                }
                self.current_dir = dir;
                self.entries = build_entries(children);
                self.selected = 0;
                self.scroll = 0;
            },
            None => {},
        }
    }

    /// Regenerate the stored preview for the selected entry from what the
    /// caller observed about its path.
    pub fn update_preview(&mut self, probe: PathProbe)
        requires
            old(self).wf(),
        ensures
            final(self).wf(),
            final(self).mode == old(self).mode,
            final(self).current_dir == old(self).current_dir,
            final(self).entries == old(self).entries,
            final(self).selected == old(self).selected,
            final(self).scroll == old(self).scroll,
            final(self).preview is Some,
            preview_matches(
                old(self).entries@[old(self).selected as int],
                probe,
                final(self).preview->0,
            ),
    {
        let p = generate_preview(&self.entries[self.selected], probe);
        self.preview = Some(p);
    }

    /// Selection moves do not adjust the viewport eagerly; the offset is
    /// recomputed with the real height at render time.
    pub fn update_scroll(&mut self)
        ensures
            *final(self) == *old(self),
    {
    }

    /// Recompute the scroll offset for a render with the given number of
    /// visible rows.
    pub fn update_scroll_with_height(&mut self, max_visible: usize)
        ensures
            final(self).scroll == spec_scroll(
                old(self).selected as int,
                old(self).entries@.len() as int,
                max_visible as int,
                old(self).scroll as int,
            ),
            final(self).mode == old(self).mode,
            final(self).current_dir == old(self).current_dir,
            final(self).entries == old(self).entries,
            final(self).selected == old(self).selected,
            final(self).preview == old(self).preview,
            old(self).wf() ==> final(self).wf(),
    {
        self.scroll = compute_scroll(self.selected, self.entries.len(), max_visible, self.scroll);
    }

    /// Enter the terminated state; no command is honoured afterwards.
    pub fn exit(&mut self)
        ensures
            final(self).mode is Terminated,
            final(self).current_dir == old(self).current_dir,
            final(self).entries == old(self).entries,
            final(self).selected == old(self).selected,
            final(self).scroll == old(self).scroll,
            final(self).preview == old(self).preview,
            old(self).wf() ==> final(self).wf(),
    {
        self.mode = Mode::Terminated;
    }

    /// The editor exited: resume browsing. In any other state this does
    /// nothing.
    pub fn editor_returned(&mut self)
        ensures
            final(self).mode == (if old(self).mode is Suspended {
                Mode::Browsing
            } else {
                old(self).mode
            }),
            final(self).current_dir == old(self).current_dir,
            final(self).entries == old(self).entries,
            final(self).selected == old(self).selected,
            final(self).scroll == old(self).scroll,
            final(self).preview == old(self).preview,
            old(self).wf() ==> final(self).wf(),
    {
        match self.mode {
            Mode::Suspended => {
                self.mode = Mode::Browsing;
            },
            _ => {},
        }
    }

    /// Apply one command. Commands are honoured only while browsing: a
    /// terminated or suspended browser ignores them all. Moves clamp the
    /// selection to the listing; activation names the directory to switch
    /// to (into the selected one, or up to the parent — a no-op at the
    /// filesystem root) without committing it, or hands a file to the
    /// editor; quitting terminates. A directory switch is committed by
    /// `apply_listing` only once its listing succeeded.
    pub fn handle_command(&mut self, cmd: Command) -> (act: Action)
        requires
            old(self).wf(),
        ensures
            final(self).wf(),
            !(old(self).mode is Browsing) ==> *final(self) == *old(self) && act is Ignored,
            old(self).mode is Browsing && cmd is Quit ==> {
                &&& final(self).mode is Terminated
                &&& final(self).current_dir == old(self).current_dir
                &&& final(self).entries == old(self).entries
                &&& final(self).selected == old(self).selected
                &&& final(self).scroll == old(self).scroll
                &&& final(self).preview == old(self).preview
                &&& act is Ignored
            },
            old(self).mode is Browsing && (cmd is MoveUp || cmd is MoveDown) ==> {
                &&& final(self).mode is Browsing
                &&& final(self).current_dir == old(self).current_dir
                &&& final(self).entries == old(self).entries
                &&& final(self).scroll == old(self).scroll
                &&& final(self).preview == old(self).preview
            },
            old(self).mode is Browsing && cmd is MoveUp ==> {
                &&& old(self).selected > 0 ==> final(self).selected == old(self).selected - 1
                    && act is Redraw
                &&& old(self).selected == 0 ==> final(self).selected == 0 && act is Ignored
            },
            old(self).mode is Browsing && cmd is MoveDown ==> {
                &&& old(self).selected + 1 < old(self).entries@.len() ==> final(self).selected
                    == old(self).selected + 1 && act is Redraw
                &&& old(self).selected + 1 >= old(self).entries@.len() ==> final(self).selected
                    == old(self).selected && act is Ignored
            },
            old(self).mode is Browsing && cmd is Activate ==> {
                &&& final(self).entries == old(self).entries
                &&& final(self).selected == old(self).selected
                &&& final(self).scroll == old(self).scroll
                &&& final(self).preview == old(self).preview
                &&& final(self).current_dir == old(self).current_dir
                &&& (old(self).entries@[old(self).selected as int].kind is Parent ==> {
                    &&& final(self).mode is Browsing
                    &&& (old(self).current_dir@.len() > 0 ==> (act matches Action::Relist { dir }
                        && dir.deep_view() == old(self).current_dir.deep_view().drop_last()))
                    &&& (old(self).current_dir@.len() == 0 ==> act is Ignored)
                })
                &&& (old(self).entries@[old(self).selected as int].kind is Directory ==> {
                    &&& final(self).mode is Browsing
                    &&& (act matches Action::Relist { dir } && dir.deep_view() == old(
                        self,
                    ).current_dir.deep_view().push(
                        strip_slash(old(self).entries@[old(self).selected as int].name@),
                    ))
                })
                &&& (old(self).entries@[old(self).selected as int].kind is File ==> {
                    &&& final(self).mode is Suspended
                    &&& (act matches Action::OpenFile { name } && name@ == old(
                        self,
                    ).entries@[old(self).selected as int].name@)
                })
            },
    {
        match self.mode {
            Mode::Browsing => {},
            _ => {
                return Action::Ignored;
            },
        }
        match cmd {
            Command::Quit => {
                self.exit();
                Action::Ignored
            },
            Command::MoveUp => {
                if self.selected > 0 {
                    self.selected = self.selected - 1;
                    Action::Redraw
                } else {
                    Action::Ignored
                }
            },
            Command::MoveDown => {
                let n = self.entries.len();
                if self.selected + 1 < n {
                    self.selected = self.selected + 1;
                    Action::Redraw
                } else {
                    Action::Ignored
                }
            },
            Command::Activate => {
                let kind = self.entries[self.selected].kind;
                match kind {
                    EntryKind::Parent => {
                        if self.current_dir.len() > 0 {
                            let mut dir = clone_components(&self.current_dir);
                            let _last = dir.pop();
                            proof {
                                assert(dir.deep_view()
                                    =~~= self.current_dir.deep_view().drop_last());
                            }
                            Action::Relist { dir }
                        } else {
                            Action::Ignored
                        }
                    },
                    EntryKind::Directory => {
                        let mut dir = clone_components(&self.current_dir);
                        let component = strip_trailing_slash(&self.entries[self.selected].name);
                        let ghost cv = component@;
                        dir.push(component);
                        proof {
                            assert(dir.deep_view() =~~= self.current_dir.deep_view().push(cv));
                        }
                        Action::Relist { dir }
                    },
                    EntryKind::File => {
                        let name = self.entries[self.selected].name.clone();
                        self.mode = Mode::Suspended;
                        Action::OpenFile { name }
                    },
                }
            },
        }
    }
}

} // verus!
