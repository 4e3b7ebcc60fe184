//! Routing of raw filesystem events, and the debounce of rename-class events.
use vstd::prelude::*;
use crate::paths::{is_image_file, is_image_path, is_markdown_file, is_markdown_path};
use crate::text::texts;

verus! {

/// Quiet window, in milliseconds, between a rename-class event in directory
/// mode and the reconciliation pass it schedules.
pub const RESCAN_DELAY_MS: u64 = 200;

/// The sub-kind of a rename event, as the watcher reports it.
#[derive(Debug, Clone, Copy, PartialEq, Eq)]
pub enum RenameMode {
    /// A rename whose side is unknown.
    Any,
    /// The path is the new name.
    To,
    /// The path is the old name.
    From,
    /// The paths are the old name, then the new name.
    Both,
    Other,
}

/// The kind of a raw filesystem event.
#[derive(Debug, Clone, Copy, PartialEq, Eq)]
pub enum EventKind {
    Create,
    /// The content of a file changed.
    ModifyData,
    /// A file was renamed.
    ModifyName(RenameMode),
    /// Another modification (metadata, or unknown).
    ModifyOther,
    Remove,
    /// Access and anything else.
    Other,
}

/// What the event loop is to do about an event.
#[derive(Debug, Clone, Copy, PartialEq, Eq)]
pub enum ActionKind {
    /// Arm the debounce timer for a reconciliation pass.
    ScheduleRescan,
    /// The markdown document at the path was created or changed.
    MarkdownChanged,
    /// As `MarkdownChanged`, once the path is found to exist.
    MarkdownChangedIfExists,
    /// Ask clients to reload, once the path is found to be a file.
    ImageChangedIfFile,
}

/// One step for the event loop: what to do, and on which path.
#[derive(Debug, Clone)]
pub struct EventAction {
    pub kind: ActionKind,
    pub path: String,
}

/// The action, if any, for one path of an event that is not a rename.
pub open spec fn path_action(kind: EventKind, p: Seq<char>, directory_mode: bool) -> Option<
    ActionKind,
> {
    if is_markdown_path(p) {
        match kind {
            EventKind::Create | EventKind::ModifyData => Some(ActionKind::MarkdownChanged),
            EventKind::Remove => if directory_mode {
                Some(ActionKind::ScheduleRescan)
            } else {
                None
            },
            _ => None,
        }
    } else if is_image_path(p) {
        match kind {
            EventKind::Create | EventKind::ModifyData | EventKind::ModifyOther
            | EventKind::Remove => Some(ActionKind::ImageChangedIfFile),
            _ => None,
        }
    } else {
        None
    }
}

/// The actions for the paths of an event that is not a rename, in order.
pub open spec fn paths_actions(kind: EventKind, ps: Seq<Seq<char>>, directory_mode: bool) -> Seq<
    (ActionKind, Seq<char>),
>
    decreases ps.len(),
{
    if ps.len() == 0 {
        Seq::empty()
    } else {
        let prev = paths_actions(kind, ps.drop_last(), directory_mode);
        match path_action(kind, ps.last(), directory_mode) {
            Some(a) => prev.push((a, ps.last())),
            None => prev,
        }
    }
}

/// The actions for a rename event. In directory mode any rename schedules
/// a reconciliation pass; with a single file the affected path is handled
/// at once, as the sub-kind tells which path carries the new name.
pub open spec fn rename_actions(mode: RenameMode, ps: Seq<Seq<char>>, directory_mode: bool) -> Seq<
    (ActionKind, Seq<char>),
> {
    if directory_mode {
        seq![(ActionKind::ScheduleRescan, Seq::<char>::empty())]
    } else {
        match mode {
            RenameMode::Both => if ps.len() >= 2 && is_markdown_path(ps[1]) {
                seq![(ActionKind::MarkdownChanged, ps[1])]
            } else {
                Seq::empty()
            },
            RenameMode::To => if ps.len() >= 1 && is_markdown_path(ps[0]) {
                seq![(ActionKind::MarkdownChanged, ps[0])]
            } else {
                Seq::empty()
            },
            RenameMode::Any => if ps.len() >= 1 && is_markdown_path(ps[0]) {
                seq![(ActionKind::MarkdownChangedIfExists, ps[0])]
            } else {
                Seq::empty()
            },
            _ => Seq::empty(),
        }
    }
}

/// The actions for an event.
pub open spec fn event_actions(kind: EventKind, ps: Seq<Seq<char>>, directory_mode: bool) -> Seq<
    (ActionKind, Seq<char>),
> {
    match kind {
        EventKind::ModifyName(mode) => rename_actions(mode, ps, directory_mode),
        _ => paths_actions(kind, ps, directory_mode),
    }
}

/// The view of a list of actions.
pub open spec fn actions_view(v: Seq<EventAction>) -> Seq<(ActionKind, Seq<char>)> {
    v.map_values(|a: EventAction| (a.kind, a.path@))
}

/// The action, if any, for one path of an event that is not a rename.
fn action_for_path(kind: EventKind, path: &str, directory_mode: bool) -> (r: Option<ActionKind>)
    ensures
        r == path_action(kind, path@, directory_mode),
{
    if is_markdown_file(path) {
        match kind {
            EventKind::Create | EventKind::ModifyData => Some(ActionKind::MarkdownChanged),
            EventKind::Remove => if directory_mode {
                Some(ActionKind::ScheduleRescan)
            } else {
                None
            },
            _ => None,
        }
    } else if is_image_file(path) {
        match kind {
            EventKind::Create | EventKind::ModifyData | EventKind::ModifyOther
            | EventKind::Remove => Some(ActionKind::ImageChangedIfFile),
            _ => None,
        }
    } else {
        None
    }
}

/// The steps the event loop takes for an event of kind `kind` on `paths`.
pub fn handle_file_event(kind: EventKind, paths: &Vec<String>, is_directory_mode: bool) -> (r: Vec<
    EventAction,
>)
    ensures
        actions_view(r@) == event_actions(kind, texts(paths@), is_directory_mode),
{
    let mut r: Vec<EventAction> = Vec::new();
    match kind {
        EventKind::ModifyName(mode) => {
            if is_directory_mode {
                r.push(EventAction { kind: ActionKind::ScheduleRescan, path: String::new() });
                assert(actions_view(r@) =~= seq![(ActionKind::ScheduleRescan, Seq::<char>::empty())]);
                return r;
            }
            let (pick, k): (usize, ActionKind) = match mode {
                RenameMode::Both => (1, ActionKind::MarkdownChanged),
                RenameMode::To => (0, ActionKind::MarkdownChanged),
                RenameMode::Any => (0, ActionKind::MarkdownChangedIfExists),
                _ => {
                    assert(actions_view(r@) =~= Seq::<(ActionKind, Seq<char>)>::empty());
                    return r;
                },
            };
            if pick < paths.len() && is_markdown_file(paths[pick].as_str()) {
                r.push(EventAction { kind: k, path: paths[pick].clone() });
                assert(texts(paths@)[pick as int] == paths@[pick as int]@);
                assert(actions_view(r@) =~= seq![(k, paths@[pick as int]@)]);
            } else {
                proof {
                    if pick < paths.len() {
                        assert(texts(paths@)[pick as int] == paths@[pick as int]@);
                    }
                }
                assert(actions_view(r@) =~= Seq::<(ActionKind, Seq<char>)>::empty());
            }
            r
        },
        _ => {
            let mut i: usize = 0;
            assert(texts(paths@).take(0) =~= Seq::<Seq<char>>::empty());
            assert(actions_view(r@) =~= paths_actions(kind, texts(paths@).take(0), is_directory_mode));
            while i < paths.len()
                invariant
                    i <= paths.len(),
                    !(kind is ModifyName),
                    actions_view(r@) == paths_actions(kind, texts(paths@).take(i as int), is_directory_mode),
                decreases paths.len() - i,
            {
                let ghost prev = r@;
                let ghost ps = texts(paths@).take(i + 1);
                assert(ps.drop_last() =~= texts(paths@).take(i as int));
                assert(ps.last() == paths@[i as int]@);
                match action_for_path(kind, paths[i].as_str(), is_directory_mode) {
                    Some(a) => {
                        r.push(EventAction { kind: a, path: paths[i].clone() });
                        assert(actions_view(r@) =~= actions_view(prev).push((a, paths@[i as int]@)));
                    },
                    None => {},
                }
                i = i + 1;
            }
            assert(texts(paths@).take(paths.len() as int) =~= texts(paths@));
            r
        },
    }
}

/// Coalesces bursts of rename-class events into one delayed reconciliation
/// pass. Timers are never cancelled: the pass re-reads the live filesystem,
/// so a timer armed earlier is at worst redundant.
pub struct DebounceScheduler {
    pending: bool,
}

impl DebounceScheduler {
    /// A timer is armed and has not fired yet.
    pub closed spec fn is_pending(&self) -> bool {
        self.pending
    }

    pub fn new() -> (r: DebounceScheduler)
        ensures
            !r.is_pending(),
    {
        DebounceScheduler { pending: false }
    }

    /// A rename-class event arrived. Returns whether a timer must be armed
    /// now: only when none is pending, so a burst arms a single timer.
    pub fn schedule_delayed_rescan(&mut self) -> (arm: bool)
        ensures
            arm == !old(self).is_pending(),
            final(self).is_pending(),
    {
        let arm = !self.pending;
        self.pending = true;
        arm
    }

    /// The timer fired: the reconciliation pass runs now, and the next
    /// rename-class event arms a new timer.
    pub fn timer_fired(&mut self)
        ensures
            !final(self).is_pending(),
    {
        self.pending = false;
    }
}

} // verus!
