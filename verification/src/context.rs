use vstd::prelude::*;
use crate::command::{commands_view, produced_by, Command, CommandView};
use crate::text::str_eq;

verus! {

/// One level of the submenu navigation stack.
///
/// Created when a branch command is entered. `items` is the snapshot of child
/// commands produced at entry time; `label` is the branch's name, shown in the
/// breadcrumb.
pub struct NavLevel {
    /// Display label for this level (the entered branch's name).
    pub label: String,
    /// The child commands resolved when this level was entered.
    pub items: Vec<Command>,
}

pub struct NavLevelView {
    pub label: Seq<char>,
    pub items: Seq<CommandView>,
}

impl View for NavLevel {
    type V = NavLevelView;

    open spec fn view(&self) -> NavLevelView {
        NavLevelView { label: self.label@, items: commands_view(self.items@) }
    }
}

impl Clone for NavLevel {
    fn clone(&self) -> (r: Self)
        ensures
            r@ == self@,
    {
        NavLevel { label: self.label.clone(), items: crate::command::clone_all(self.items.as_slice()) }
    }
}

pub open spec fn levels_view(s: Seq<NavLevel>) -> Seq<NavLevelView> {
    s.map_values(|l: NavLevel| l@)
}

/// State of a command palette: the registered commands (the root level),
/// whether the palette is open, and the submenu navigation stack.
pub struct CommandPaletteContext {
    /// All currently registered commands (the root level).
    commands: Vec<Command>,
    /// Whether the palette is currently open.
    open: bool,
    /// Submenu navigation stack. Empty means we're at the root level; each
    /// entry is a level the user has drilled into.
    nav_stack: Vec<NavLevel>,
}

pub struct PaletteView {
    pub commands: Seq<CommandView>,
    pub open: bool,
    pub nav: Seq<NavLevelView>,
}

impl View for CommandPaletteContext {
    type V = PaletteView;

    closed spec fn view(&self) -> PaletteView {
        PaletteView {
            commands: commands_view(self.commands@),
            open: self.open,
            nav: levels_view(self.nav_stack@),
        }
    }
}

/// `s` without the commands whose id is `id`.
pub open spec fn remove_id(s: Seq<CommandView>, id: Seq<char>) -> Seq<CommandView>
    decreases s.len(),
{
    if s.len() == 0 {
        seq![]
    } else {
        let p = remove_id(s.drop_last(), id);
        if s.last().id == id {
            p
        } else {
            p.push(s.last())
        }
    }
}

/// `s` without the commands whose id is in `ids`.
pub open spec fn remove_ids(s: Seq<CommandView>, ids: Seq<Seq<char>>) -> Seq<CommandView>
    decreases s.len(),
{
    if s.len() == 0 {
        seq![]
    } else {
        let p = remove_ids(s.drop_last(), ids);
        if ids.contains(s.last().id) {
            p
        } else {
            p.push(s.last())
        }
    }
}

/// Registering `c`: any command with its id is dropped, and `c` goes last.
pub open spec fn register_spec(s: Seq<CommandView>, c: CommandView) -> Seq<CommandView> {
    remove_id(s, c.id).push(c)
}

/// Registering each of `cs` in turn.
pub open spec fn register_all(s: Seq<CommandView>, cs: Seq<CommandView>) -> Seq<CommandView>
    decreases cs.len(),
{
    if cs.len() == 0 {
        s
    } else {
        register_spec(register_all(s, cs.drop_last()), cs.last())
    }
}

/// Opening the palette.
pub open spec fn open_spec(v: PaletteView) -> PaletteView {
    PaletteView { open: true, ..v }
}

/// Closing the palette: it forgets the submenus it was in.
pub open spec fn close_spec(v: PaletteView) -> PaletteView {
    PaletteView { open: false, nav: Seq::<NavLevelView>::empty(), ..v }
}

/// Toggling: closing an open palette, opening a closed one.
pub open spec fn toggle_spec(v: PaletteView) -> PaletteView {
    if v.open {
        close_spec(v)
    } else {
        open_spec(v)
    }
}

/// Going up one submenu level (nothing at the root).
pub open spec fn back_spec(v: PaletteView) -> PaletteView {
    PaletteView { nav: if v.nav.len() == 0 { v.nav } else { v.nav.drop_last() }, ..v }
}

/// Keeping only the first `depth` submenu levels.
pub open spec fn pop_to_spec(v: PaletteView, depth: int) -> PaletteView {
    PaletteView { nav: if depth < v.nav.len() { v.nav.take(depth) } else { v.nav }, ..v }
}

/// Escape: up one level inside a submenu, otherwise close.
pub open spec fn back_or_close_spec(v: PaletteView) -> PaletteView {
    if v.nav.len() > 0 {
        back_spec(v)
    } else {
        close_spec(v)
    }
}

/// Entering a branch whose producer returned `items`.
pub open spec fn enter_spec(v: PaletteView, branch: CommandView, items: Seq<CommandView>) -> PaletteView {
    PaletteView { nav: v.nav.push(level_of(branch, items)), ..v }
}

/// The level whose label is the branch's name and whose items are `items`.
pub open spec fn level_of(branch: CommandView, items: Seq<CommandView>) -> NavLevelView {
    NavLevelView { label: branch.name, items }
}

pub open spec fn str_views(s: Seq<&str>) -> Seq<Seq<char>> {
    s.map_values(|x: &str| x@)
}

/// Moves the commands of `v` whose id differs from `id`, in order, out of `v`.
fn keep_other_ids(v: Vec<Command>, id: &str) -> (r: Vec<Command>)
    ensures
        commands_view(r@) == remove_id(commands_view(v@), id@),
{
    let ghost s = commands_view(v@);
    let mut out: Vec<Command> = Vec::new();
    let mut rest = v;
    let ghost mut taken: int = 0;
    let n = rest.len();
    let mut i: usize = 0;
    proof {
        assert(s.take(0) =~= Seq::<CommandView>::empty());
        assert(commands_view(out@) =~= Seq::<CommandView>::empty());
    }
    while i < n
        invariant
            i <= n,
            n == s.len(),
            rest@.len() == n - i,
            forall|q: int| 0 <= q < n - i ==> (#[trigger] rest@[q])@ == s[i + q],
            commands_view(out@) == remove_id(s.take(i as int), id@),
        decreases n - i,
    {
        let c = rest.remove(0);
        assert(c@ == s[i as int]);
        assert(s.take(i + 1).drop_last() =~= s.take(i as int));
        assert(s.take(i + 1).last() == s[i as int]);
        if !str_eq(c.id_str(), id) {
            let ghost before = out@;
            out.push(c);
            assert(commands_view(out@) =~= commands_view(before).push(s[i as int]));
        }
        proof {
            assert forall|q: int| 0 <= q < n - (i + 1) implies (#[trigger] rest@[q])@ == s[(i + 1) + q] by {}
        }
        i += 1;
    }
    assert(s.take(n as int) =~= s);
    out
}

fn contains_str(ids: &[&str], x: &str) -> (r: bool)
    ensures
        r == str_views(ids@).contains(x@),
{
    let n = ids.len();
    let mut i: usize = 0;
    while i < n
        invariant
            i <= n,
            n == ids@.len(),
            forall|j: int| 0 <= j < i ==> ids@[j]@ != x@,
        decreases n - i,
    {
        if str_eq(ids[i], x) {
            assert(str_views(ids@)[i as int] == x@);
            return true;
        }
        i += 1;
    }
    assert forall|j: int| 0 <= j < n implies str_views(ids@)[j] != x@ by {
        assert(ids@[j]@ != x@);
    }
    false
}

impl CommandPaletteContext {
    pub fn new() -> (r: Self)
        ensures
            r@.commands.len() == 0,
            !r@.open,
            r@.nav.len() == 0,
    {
        CommandPaletteContext { commands: Vec::new(), open: false, nav_stack: Vec::new() }
    }

    /// Register a command. If a command with the same ID exists, it is replaced.
    pub fn register(&mut self, command: Command)
        ensures
            final(self)@ == (PaletteView { commands: register_spec(old(self)@.commands, command@), ..old(self)@ }),
    {
        let mut old_commands: Vec<Command> = Vec::new();
        std::mem::swap(&mut old_commands, &mut self.commands);
        let mut kept = keep_other_ids(old_commands, command.id_str());
        let ghost cv = command@;
        let ghost before = kept@;
        kept.push(command);
        assert(commands_view(kept@) =~= commands_view(before).push(cv));
        self.commands = kept;
    }

    /// Register multiple commands at once.
    pub fn register_many(&mut self, new_commands: Vec<Command>)
        ensures
            final(self)@ == (PaletteView { commands: register_all(old(self)@.commands, commands_view(new_commands@)), ..old(self)@ }),
    {
        let ghost cs = commands_view(new_commands@);
        let mut rest = new_commands;
        let n = rest.len();
        let mut i: usize = 0;
        proof {
            assert(cs.take(0) =~= Seq::<CommandView>::empty());
        }
        while i < n
            invariant
                i <= n,
                n == cs.len(),
                rest@.len() == n - i,
                forall|q: int| 0 <= q < n - i ==> (#[trigger] rest@[q])@ == cs[i + q],
                self@ == (PaletteView { commands: register_all(old(self)@.commands, cs.take(i as int)), ..old(self)@ }),
            decreases n - i,
        {
            let c = rest.remove(0);
            assert(cs.take(i + 1).drop_last() =~= cs.take(i as int));
            assert(cs.take(i + 1).last() == cs[i as int]);
            self.register(c);
            proof {
                assert forall|q: int| 0 <= q < n - (i + 1) implies (#[trigger] rest@[q])@ == cs[(i + 1) + q] by {}
            }
            i += 1;
        }
        assert(cs.take(n as int) =~= cs);
    }

    /// Remove a command by ID.
    pub fn unregister(&mut self, id: &str)
        ensures
            final(self)@ == (PaletteView { commands: remove_id(old(self)@.commands, id@), ..old(self)@ }),
    {
        let mut old_commands: Vec<Command> = Vec::new();
        std::mem::swap(&mut old_commands, &mut self.commands);
        self.commands = keep_other_ids(old_commands, id);
    }

    /// Remove multiple commands by ID.
    pub fn unregister_many(&mut self, ids: &[&str])
        ensures
            final(self)@ == (PaletteView { commands: remove_ids(old(self)@.commands, str_views(ids@)), ..old(self)@ }),
    {
        let mut rest: Vec<Command> = Vec::new();
        std::mem::swap(&mut rest, &mut self.commands);
        let ghost s = commands_view(rest@);
        let ghost iv = str_views(ids@);
        let mut out: Vec<Command> = Vec::new();
        let n = rest.len();
        let mut i: usize = 0;
        proof {
            assert(s.take(0) =~= Seq::<CommandView>::empty());
            assert(commands_view(out@) =~= Seq::<CommandView>::empty());
        }
        while i < n
            invariant
                i <= n,
                n == s.len(),
                rest@.len() == n - i,
                iv == str_views(ids@),
                forall|q: int| 0 <= q < n - i ==> (#[trigger] rest@[q])@ == s[i + q],
                commands_view(out@) == remove_ids(s.take(i as int), iv),
            decreases n - i,
        {
            let c = rest.remove(0);
            assert(c@ == s[i as int]);
            assert(s.take(i + 1).drop_last() =~= s.take(i as int));
            assert(s.take(i + 1).last() == s[i as int]);
            if !contains_str(ids, c.id_str()) {
                let ghost before = out@;
                out.push(c);
                assert(commands_view(out@) =~= commands_view(before).push(s[i as int]));
            }
            proof {
                assert forall|q: int| 0 <= q < n - (i + 1) implies (#[trigger] rest@[q])@ == s[(i + 1) + q] by {}
            }
            i += 1;
        }
        assert(s.take(n as int) =~= s);
        self.commands = out;
    }

    /// All registered commands (the root level).
    pub fn commands(&self) -> (r: &Vec<Command>)
        ensures
            commands_view(r@) == self@.commands,
    {
        &self.commands
    }

    /// Open the command palette.
    pub fn open(&mut self)
        ensures
            final(self)@ == open_spec(old(self)@),
    {
        self.open = true;
    }

    /// Close the command palette. Resets submenu navigation back to the root,
    /// so reopening always starts at the top level.
    pub fn close(&mut self)
        ensures
            final(self)@ == close_spec(old(self)@),
    {
        self.open = false;
        self.nav_stack = Vec::new();
        assert(levels_view(self.nav_stack@) =~= Seq::<NavLevelView>::empty());
    }

    /// Toggle the command palette open/closed.
    pub fn toggle(&mut self)
        ensures
            final(self)@ == toggle_spec(old(self)@),
    {
        if self.open {
            self.close();
        } else {
            self.open = true;
        }
    }

    /// Whether the palette is currently open.
    pub fn is_open(&self) -> (r: bool)
        ensures
            r == self@.open,
    {
        self.open
    }

    /// The submenu navigation stack. Empty at the root level.
    pub fn nav_stack(&self) -> (r: &Vec<NavLevel>)
        ensures
            levels_view(r@) == self@.nav,
    {
        &self.nav_stack
    }

    /// Current drill-down depth (0 at the root level).
    pub fn depth(&self) -> (r: usize)
        ensures
            r == self@.nav.len(),
    {
        self.nav_stack.len()
    }

    /// Push the level for `command` holding `items`, the children its
    /// producer returned.
    pub fn enter_with_items(&mut self, command: &Command, items: Vec<Command>)
        ensures
            final(self)@ == enter_spec(old(self)@, command@, commands_view(items@)),
    {
        let level = NavLevel { label: command.name_str().to_owned(), items };
        let ghost lv = level@;
        let ghost before = self.nav_stack@;
        self.nav_stack.push(level);
        assert(levels_view(self.nav_stack@) =~= levels_view(before).push(lv));
    }

    /// Enter a branch command: resolve its children and push a new level.
    ///
    /// No-op for leaf commands. The child list is snapshotted now, so it
    /// reflects live data at the moment of entry.
    pub fn enter(&mut self, command: &Command)
        ensures
            command@.children is None ==> final(self)@ == old(self)@,
            command@.children is Some ==> exists|items: Seq<CommandView>|
                final(self)@ == #[trigger] enter_spec(old(self)@, command@, items),
            command@.children is Some ==> exists|items: Seq<Command>|
                #[trigger] produced_by(command@.children.unwrap(), items) && final(self)@ == enter_spec(
                    old(self)@,
                    command@,
                    commands_view(items),
                ),
    {
        if let Some(items) = command.resolve_children() {
            let ghost produced = items@;
            self.enter_with_items(command, items);
            assert(produced_by(command@.children.unwrap(), produced));
        }
    }

    /// Pop one level off the navigation stack (go up one menu). No-op at root.
    pub fn back(&mut self)
        ensures
            final(self)@ == back_spec(old(self)@),
    {
        let ghost before = self.nav_stack@;
        let _ = self.nav_stack.pop();
        assert(levels_view(self.nav_stack@) =~= (if before.len() == 0 { levels_view(before) } else { levels_view(before).drop_last() }));
    }

    /// Truncate the navigation stack to `depth` levels (used by breadcrumb
    /// clicks). `pop_to(0)` returns to the root level.
    pub fn pop_to(&mut self, depth: usize)
        ensures
            final(self)@ == pop_to_spec(old(self)@, depth as int),
    {
        let ghost before = self.nav_stack@;
        self.nav_stack.truncate(depth);
        assert(levels_view(self.nav_stack@) =~= (if depth < before.len() { levels_view(before).take(depth as int) } else { levels_view(before) }));
    }

    /// Go up one level if inside a submenu, otherwise close the palette.
    /// Wired to the Escape key.
    pub fn back_or_close(&mut self)
        ensures
            final(self)@ == back_or_close_spec(old(self)@),
    {
        if self.depth() > 0 {
            self.back();
        } else {
            self.close();
        }
    }

    /// The commands visible at the current depth: the root registrations when
    /// not in a submenu, otherwise the snapshot taken when the current branch
    /// was entered.
    pub fn current_items(&self) -> (r: Vec<Command>)
        ensures
            commands_view(r@) == if self@.nav.len() == 0 { self@.commands } else { self@.nav.last().items },
    {
        let n = self.nav_stack.len();
        if n == 0 {
            crate::command::clone_all(self.commands.as_slice())
        } else {
            crate::command::clone_all(self.nav_stack[n - 1].items.as_slice())
        }
    }

    /// Selecting a command: a branch is entered; a leaf runs its action and
    /// closes the palette.
    pub fn activate(&mut self, command: &Command)
        ensures
            command@.children is Some ==> exists|items: Seq<CommandView>|
                final(self)@ == #[trigger] enter_spec(old(self)@, command@, items),
            command@.children is Some ==> exists|items: Seq<Command>|
                #[trigger] produced_by(command@.children.unwrap(), items) && final(self)@ == enter_spec(
                    old(self)@,
                    command@,
                    commands_view(items),
                ),
            command@.children is None ==> final(self)@ == close_spec(old(self)@),
    {
        if command.is_branch() {
            self.enter(command);
        } else {
            command.execute();
            self.close();
        }
    }
}

} // verus!
