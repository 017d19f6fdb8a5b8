use vstd::prelude::*;
use std::sync::Arc;
use crate::search::{
    fields_spec, fields_wf, score_spec, score_view, search_score_fields, terms_spec, terms_wf,
    FieldSpec, ScoreSpec, SearchField, SearchScore, SearchTerm,
};
use crate::shortcut::{shortcut_matches, KeyStroke, Modifier, Shortcut, ShortcutView};
pub use crate::position::CommandPalettePosition;
use crate::text::{
    chars_of, is_white_space, lowercase_of, char_is_whitespace, push_char, str_byte_len, str_eq,
    to_lowercase,
};

verus! {

/// What a leaf command runs when it is selected. Opaque: only the closure
/// given to `Action::new` knows what it does.
#[verifier::external_body]
pub struct Action {
    run: Arc<dyn Fn() + Send + Sync>,
}

impl Action {
    /// Wraps the closure (`Arc::new`). Nothing is claimed of the result.
    #[verifier::external_body]
    fn new<F: Fn() + Send + Sync + 'static>(f: F) -> (r: Action) {
        Action { run: Arc::new(f) }
    }

    /// Calls the closure. Nothing is claimed of what it does.
    #[verifier::external_body]
    fn run(&self) {
        (self.run)()
    }

    /// `Arc::clone`: another handle to the same closure.
    #[verifier::external_body]
    fn share(&self) -> (r: Action)
        ensures
            r == *self,
    {
        Action { run: Arc::clone(&self.run) }
    }
}

/// Produces the children of a submenu each time the submenu is entered.
/// Opaque: only the closure given to `ChildSource::new` knows what it returns.
#[verifier::external_body]
pub struct ChildSource {
    produce: Arc<dyn Fn() -> Vec<Command> + Send + Sync>,
}

impl ChildSource {
    /// Wraps the closure (`Arc::new`). Nothing is claimed of the result.
    #[verifier::external_body]
    fn new<F: Fn() -> Vec<Command> + Send + Sync + 'static>(f: F) -> (r: ChildSource) {
        ChildSource { produce: Arc::new(f) }
    }

    /// Calls the closure. It may read live application state, so nothing is
    /// claimed of the list it returns.
    #[verifier::external_body]
    fn produce(&self) -> (r: Vec<Command>) {
        (self.produce)()
    }

    /// `Arc::clone`: another handle to the same closure.
    #[verifier::external_body]
    fn share(&self) -> (r: ChildSource)
        ensures
            r == *self,
    {
        ChildSource { produce: Arc::clone(&self.produce) }
    }
}

/// `out` is a list that the producer `src` can return when it is called:
/// what a call of it returned. The producer may read live state, so two calls
/// can return different lists; each is related to `src` this way.
pub closed spec fn produced_by(src: ChildSource, out: Seq<Command>) -> bool {
    exists|v: Vec<Command>| v@ == out && call_ensures(ChildSource::produce, (&src,), v)
}

/// `c` is a branch whose children are searched from the top level.
pub open spec fn searches_kids(c: CommandView) -> bool {
    c.search_children && c.children is Some
}

/// A compact colored label displayed with a command.
///
/// Applications can use badges for contextual metadata such as tags, status,
/// environment, or ownership without encoding presentation into descriptions.
#[derive(Debug, PartialEq, Eq)]
pub struct CommandBadge {
    /// Text displayed inside the badge and included in palette search.
    pub label: String,
    /// CSS color used for the badge dot, text, border, and tinted background.
    pub color: String,
}

pub struct BadgeView {
    pub label: Seq<char>,
    pub color: Seq<char>,
}

impl View for CommandBadge {
    type V = BadgeView;

    open spec fn view(&self) -> BadgeView {
        BadgeView { label: self.label@, color: self.color@ }
    }
}

impl Clone for CommandBadge {
    fn clone(&self) -> (r: Self)
        ensures
            r == *self,
    {
        CommandBadge { label: self.label.clone(), color: self.color.clone() }
    }
}

impl CommandBadge {
    pub fn new<L: Into<String>, C: Into<String>>(label: L, color: C) -> (r: Self)
        ensures
            call_ensures(L::into, (label,), r.label),
            call_ensures(C::into, (color,), r.color),
    {
        CommandBadge { label: label.into(), color: color.into() }
    }
}

/// A unique identifier for a command.
pub type CommandId = String;

/// A command that can appear in the palette.
pub struct Command {
    /// Unique identifier for this command.
    pub id: CommandId,
    /// Display name shown in the palette.
    pub name: String,
    /// Optional description shown below the name.
    pub description: Option<String>,
    /// Optional group/category for visual grouping.
    pub group: Option<String>,
    /// Optional keyboard shortcut — both the keybinding and the display hint.
    pub shortcut: Option<Shortcut>,
    /// Compact contextual labels rendered below the command name.
    pub badges: Vec<CommandBadge>,
    /// The action to execute when this command is selected (no-op for branches).
    action: Action,
    /// When present, this command is a *branch*: selecting it drills into a
    /// child list instead of executing. The producer is invoked at the moment
    /// the branch is entered, so it can snapshot live data.
    children: Option<ChildSource>,
    /// When `true` (and this is a branch), the branch's children are surfaced
    /// directly in search results — see [`Command::searchable_children`].
    search_children: bool,
    /// Parent submenu shown as the sticky section heading when this command is
    /// promoted into search results.
    search_parent: Option<String>,
}

pub open spec fn opt_view(o: Option<String>) -> Option<Seq<char>> {
    match o {
        Some(s) => Some(s@),
        None => None,
    }
}

pub open spec fn opt_shortcut_view(o: Option<Shortcut>) -> Option<ShortcutView> {
    match o {
        Some(s) => Some(s@),
        None => None,
    }
}

pub open spec fn badges_view(b: Seq<CommandBadge>) -> Seq<BadgeView> {
    b.map_values(|x: CommandBadge| x@)
}

/// Everything a command holds.
pub struct CommandView {
    pub id: Seq<char>,
    pub name: Seq<char>,
    pub description: Option<Seq<char>>,
    pub group: Option<Seq<char>>,
    pub shortcut: Option<ShortcutView>,
    pub badges: Seq<BadgeView>,
    pub action: Action,
    pub children: Option<ChildSource>,
    pub search_children: bool,
    pub search_parent: Option<Seq<char>>,
}

impl View for Command {
    type V = CommandView;

    closed spec fn view(&self) -> CommandView {
        CommandView {
            id: self.id@,
            name: self.name@,
            description: opt_view(self.description),
            group: opt_view(self.group),
            shortcut: opt_shortcut_view(self.shortcut),
            badges: badges_view(self.badges@),
            action: self.action,
            children: self.children,
            search_children: self.search_children,
            search_parent: opt_view(self.search_parent),
        }
    }
}

pub open spec fn commands_view(s: Seq<Command>) -> Seq<CommandView> {
    s.map_values(|c: Command| c@)
}

/// `v` is what `x.into()` can give, seen as characters.
pub open spec fn converted<X: Into<String>>(x: X, v: Seq<char>) -> bool {
    exists|s: String| call_ensures(X::into, (x,), s) && s@ == v
}

fn clone_opt_string(o: &Option<String>) -> (r: Option<String>)
    ensures
        opt_view(r) == opt_view(*o),
{
    match o {
        Some(s) => Some(s.clone()),
        None => None,
    }
}

fn clone_badges(b: &Vec<CommandBadge>) -> (r: Vec<CommandBadge>)
    ensures
        badges_view(r@) == badges_view(b@),
{
    let mut out: Vec<CommandBadge> = Vec::new();
    let n = b.len();
    let mut i: usize = 0;
    while i < n
        invariant
            i <= n,
            n == b@.len(),
            out@.len() == i,
            badges_view(out@) == badges_view(b@.take(i as int)),
        decreases n - i,
    {
        let ghost before = out@;
        out.push(b[i].clone());
        assert forall|q: int| 0 <= q < i + 1 implies badges_view(out@)[q] == badges_view(b@.take(i + 1))[q] by {
            if q < i {
                assert(out@[q] == before[q]);
                assert(badges_view(before)[q] == badges_view(b@.take(i as int))[q]);
            }
        }
        assert(badges_view(out@) =~= badges_view(b@.take(i + 1)));
        i += 1;
    }
    assert(b@.take(n as int) =~= b@);
    out
}

impl Clone for Command {
    fn clone(&self) -> (r: Self)
        ensures
            r@ == self@,
    {
        Command {
            id: self.id.clone(),
            name: self.name.clone(),
            description: clone_opt_string(&self.description),
            group: clone_opt_string(&self.group),
            shortcut: match &self.shortcut {
                Some(s) => Some(s.clone()),
                None => None,
            },
            badges: clone_badges(&self.badges),
            action: self.action.share(),
            children: match &self.children {
                Some(c) => Some(c.share()),
                None => None,
            },
            search_children: self.search_children,
            search_parent: clone_opt_string(&self.search_parent),
        }
    }
}

impl Command {
    pub fn new<I: Into<String>, N: Into<String>, F: Fn() + Send + Sync + 'static>(
        id: I,
        name: N,
        action: F,
    ) -> (r: Self)
        ensures
            converted(id, r@.id),
            converted(name, r@.name),
            r@.description is None,
            r@.group is None,
            r@.shortcut is None,
            r@.badges.len() == 0,
            r@.children is None,
            !r@.search_children,
            r@.search_parent is None,
    {
        Command {
            id: id.into(),
            name: name.into(),
            description: None,
            group: None,
            shortcut: None,
            badges: Vec::new(),
            action: Action::new(action),
            children: None,
            search_children: false,
            search_parent: None,
        }
    }

    /// Create a *submenu* (branch) command. Selecting it drills into the list
    /// produced by `children` rather than executing an action.
    ///
    /// `children` is invoked each time the branch is entered, so it can read
    /// live application state and return an up-to-date child list. Children may
    /// themselves be submenus, giving arbitrary-depth drill-down flows.
    pub fn submenu<I: Into<String>, N: Into<String>, F: Fn() -> Vec<Command> + Send + Sync + 'static>(
        id: I,
        name: N,
        children: F,
    ) -> (r: Self)
        ensures
            converted(id, r@.id),
            converted(name, r@.name),
            r@.description is None,
            r@.group is None,
            r@.shortcut is None,
            r@.badges.len() == 0,
            r@.children is Some,
            !r@.search_children,
            r@.search_parent is None,
    {
        Command {
            id: id.into(),
            name: name.into(),
            description: None,
            group: None,
            shortcut: None,
            badges: Vec::new(),
            action: Action::new(|| {}),
            children: Some(ChildSource::new(children)),
            search_children: false,
            search_parent: None,
        }
    }

    /// Turn this command into a *branch* by attaching a child-list producer.
    ///
    /// Useful for adding drill-down to a command built with [`Command::new`].
    /// Any existing action is preserved but ignored while the command is a
    /// branch (selecting it drills in rather than executing).
    pub fn children<F: Fn() -> Vec<Command> + Send + Sync + 'static>(self, children: F) -> (r: Self)
        ensures
            r@.children is Some,
            r@ == (CommandView { children: r@.children, ..self@ }),
    {
        let mut cmd = self;
        cmd.children = Some(ChildSource::new(children));
        cmd
    }

    /// Opt this branch's children into top-level search.
    ///
    /// While the query is non-empty, matching children are surfaced inline
    /// alongside this command (shown with this command's name as context), so
    /// the user can jump straight to a sub-option without entering the submenu
    /// first. With an empty query the submenu still shows as a normal drill-in;
    /// this has no effect on a leaf.
    pub fn searchable_children(self) -> (r: Self)
        ensures
            r@ == (CommandView { search_children: true, ..self@ }),
    {
        let mut cmd = self;
        cmd.search_children = true;
        cmd
    }

    /// Whether this branch's children are surfaced in top-level search
    /// (see [`Command::searchable_children`]).
    pub fn searches_children(&self) -> (r: bool)
        ensures
            r == self@.search_children,
    {
        self.search_children
    }

    pub fn description<D: Into<String>>(self, desc: D) -> (r: Self)
        ensures
            r@.description is Some,
            converted(desc, r@.description.unwrap()),
            r@ == (CommandView { description: r@.description, ..self@ }),
    {
        let mut cmd = self;
        cmd.description = Some(desc.into());
        cmd
    }

    pub fn group<G: Into<String>>(self, group: G) -> (r: Self)
        ensures
            r@.group is Some,
            converted(group, r@.group.unwrap()),
            r@ == (CommandView { group: r@.group, ..self@ }),
    {
        let mut cmd = self;
        cmd.group = Some(group.into());
        cmd
    }

    /// Add one contextual badge to this command.
    pub fn badge(self, badge: CommandBadge) -> (r: Self)
        ensures
            r@ == (CommandView { badges: self@.badges.push(badge@), ..self@ }),
    {
        let mut cmd = self;
        let ghost old_badges = cmd.badges@;
        cmd.badges.push(badge);
        assert(badges_view(cmd.badges@) =~= badges_view(old_badges).push(badge@));
        cmd
    }

    /// Add contextual badges to this command in display order.
    pub fn badges<I: Into<Vec<CommandBadge>>>(self, badges: I) -> (r: Self)
        ensures
            exists|added: Vec<CommandBadge>|
                call_ensures(I::into, (badges,), added) && r@ == (CommandView {
                    badges: self@.badges + badges_view(added@),
                    ..self@
                }),
    {
        let mut cmd = self;
        let mut added: Vec<CommandBadge> = badges.into();
        let ghost old_badges = cmd.badges@;
        let ghost new_badges = added@;
        cmd.badges.append(&mut added);
        assert(badges_view(cmd.badges@) =~= badges_view(old_badges) + badges_view(new_badges));
        cmd
    }

    /// Set the keyboard shortcut for this command.
    pub fn shortcut<K: Into<String>>(self, modifiers: Vec<Modifier>, key: K) -> (r: Self)
        ensures
            r@.shortcut is Some,
            r@.shortcut.unwrap().modifiers == modifiers@,
            converted(key, r@.shortcut.unwrap().key),
            r@ == (CommandView { shortcut: r@.shortcut, ..self@ }),
    {
        let mut cmd = self;
        let s = Shortcut::new(modifiers, key);
        cmd.shortcut = Some(s);
        cmd
    }

    /// Run this command's action.
    pub fn execute(&self) {
        self.action.run()
    }

    /// Whether this command drills into a submenu (rather than executing).
    pub fn is_branch(&self) -> (r: bool)
        ensures
            r == self@.children is Some,
    {
        self.children.is_some()
    }

    /// Resolve this branch's child commands by invoking its producer closure.
    ///
    /// Returns `None` for leaf commands. Called when the branch is entered, so
    /// the returned list reflects live data at that moment.
    pub fn resolve_children(&self) -> (r: Option<Vec<Command>>)
        ensures
            r is Some <==> self@.children is Some,
            r is Some ==> produced_by(self@.children.unwrap(), r.unwrap()@),
    {
        match &self.children {
            Some(f) => {
                let produce = ChildSource::produce;
                let kids = produce(f);
                Some(kids)
            },
            None => None,
        }
    }

    /// A clone of this child grouped beneath `parent_label`, used when a child
    /// is promoted into top-level search. Keeps any existing description.
    pub fn promoted_under(&self, parent_label: &str) -> (r: Command)
        ensures
            r@ == (CommandView { search_parent: Some(parent_label@), ..self@ }),
    {
        let mut child = self.clone();
        child.search_parent = Some(parent_label.to_owned());
        child
    }

    /// The submenu a search result was promoted from, if any.
    pub fn search_parent(&self) -> (r: Option<&str>)
        ensures
            r is Some <==> self@.search_parent is Some,
            r is Some ==> r.unwrap()@ == self@.search_parent.unwrap(),
    {
        match &self.search_parent {
            Some(p) => Some(p.as_str()),
            None => None,
        }
    }

    /// This command's identifier.
    pub fn id_str(&self) -> (r: &str)
        ensures
            r@ == self@.id,
    {
        self.id.as_str()
    }

    /// Whether this command's shortcut matches the key press.
    pub fn shortcut_matches(&self, ev: &KeyStroke, mac: bool) -> (r: bool)
        ensures
            r == (self@.shortcut is Some && shortcut_matches(self@.shortcut.unwrap(), *ev, mac)),
    {
        match &self.shortcut {
            Some(s) => s.matches(ev, mac),
            None => false,
        }
    }

    /// Whether this command's id is `id`.
    pub fn has_id(&self, id: &str) -> (r: bool)
        ensures
            r == (self@.id == id@),
    {
        str_eq(self.id.as_str(), id)
    }

    /// This command's display name.
    pub fn name_str(&self) -> (r: &str)
        ensures
            r@ == self@.name,
    {
        self.name.as_str()
    }
}

impl PartialEq for Command {
    fn eq(&self, other: &Self) -> (r: bool) {
        self.id == other.id
    }
}

impl vstd::std_specs::cmp::PartialEqSpecImpl for Command {
    open spec fn obeys_eq_spec() -> bool {
        true
    }

    open spec fn eq_spec(&self, other: &Self) -> bool {
        self@.id == other@.id
    }
}

// ---------------------------------------------------------------------------
// Searching the commands of one palette level
// ---------------------------------------------------------------------------

pub open spec fn lower_field(text: Seq<char>, penalty: int, is_parent: bool) -> FieldSpec {
    FieldSpec { text: lowercase_of(text), penalty, is_parent }
}

pub open spec fn opt_field(text: Option<Seq<char>>, penalty: int, is_parent: bool) -> Seq<FieldSpec> {
    match text {
        Some(t) => seq![lower_field(t, penalty, is_parent)],
        None => seq![],
    }
}

/// The searchable fields of a command, lowercased, in order: the submenu it
/// was promoted from, its name, description, badge labels and group.
pub open spec fn fields_of(v: CommandView) -> Seq<FieldSpec> {
    opt_field(v.search_parent, 1, true) + seq![lower_field(v.name, 0, false)] + opt_field(
        v.description,
        2,
        false,
    ) + v.badges.map_values(|b: BadgeView| lower_field(b.label, 1, false)) + opt_field(
        v.group,
        2,
        false,
    )
}

/// The score of a command against the query terms; a promoted child must
/// match somewhere besides its submenu's title.
pub open spec fn command_score(v: CommandView, terms: Seq<Seq<char>>) -> Option<ScoreSpec> {
    score_spec(fields_of(v), terms, v.search_parent is Some)
}

fn make_field(text: &str, field_penalty: u128, is_parent: bool) -> (r: SearchField)
    requires
        field_penalty <= 2,
    ensures
        r.spec() == lower_field(text@, field_penalty as int, is_parent),
        r.wf(),
{
    let lowered = to_lowercase(text);
    let chars = chars_of(lowered.as_str());
    let byte_len = str_byte_len(lowered.as_str());
    SearchField { text: chars, byte_len, field_penalty, is_parent }
}

fn push_field(fields: &mut Vec<SearchField>, f: SearchField)
    requires
        fields_wf(old(fields)@),
        f.wf(),
    ensures
        fields_wf(final(fields)@),
        fields_spec(final(fields)@) == fields_spec(old(fields)@).push(f.spec()),
{
    fields.push(f);
    assert(fields_spec(fields@) =~= fields_spec(old(fields)@).push(f.spec()));
}

/// The searchable fields of `cmd`, lowercased.
pub fn search_fields(cmd: &Command) -> (r: Vec<SearchField>)
    ensures
        fields_spec(r@) == fields_of(cmd@),
        fields_wf(r@),
{
    let ghost v = cmd@;
    let mut fields: Vec<SearchField> = Vec::new();
    if let Some(parent) = &cmd.search_parent {
        push_field(&mut fields, make_field(parent.as_str(), 1, true));
    }
    assert(fields_spec(fields@) =~= opt_field(v.search_parent, 1, true));
    push_field(&mut fields, make_field(cmd.name.as_str(), 0, false));
    if let Some(description) = &cmd.description {
        push_field(&mut fields, make_field(description.as_str(), 2, false));
    }
    let ghost head = opt_field(v.search_parent, 1, true) + seq![lower_field(v.name, 0, false)] + opt_field(v.description, 2, false);
    assert(fields_spec(fields@) =~= head);
    let ghost badge_fields = v.badges.map_values(|b: BadgeView| lower_field(b.label, 1, false));
    let nb = cmd.badges.len();
    let mut i: usize = 0;
    while i < nb
        invariant
            i <= nb,
            nb == cmd.badges@.len(),
            v == cmd@,
            badge_fields == v.badges.map_values(|b: BadgeView| lower_field(b.label, 1, false)),
            v.badges == badges_view(cmd.badges@),
            fields_wf(fields@),
            fields_spec(fields@) == head + badge_fields.take(i as int),
        decreases nb - i,
    {
        push_field(&mut fields, make_field(cmd.badges[i].label.as_str(), 1, false));
        assert(head + badge_fields.take(i + 1) =~= (head + badge_fields.take(i as int)).push(badge_fields[i as int]));
        i += 1;
    }
    assert(badge_fields.take(nb as int) =~= badge_fields);
    if let Some(group) = &cmd.group {
        push_field(&mut fields, make_field(group.as_str(), 2, false));
    }
    assert(fields_spec(fields@) =~= fields_of(v));
    fields
}

/// The score of `cmd` against the query terms, or `None` when it does not match.
pub fn search_score(cmd: &Command, terms: &Vec<SearchTerm>) -> (r: Option<SearchScore>)
    requires
        terms_wf(terms@),
    ensures
        score_view(r) == command_score(cmd@, terms_spec(terms@)),
{
    let fields = search_fields(cmd);
    search_score_fields(&fields, terms, cmd.search_parent.is_some())
}

/// Splits `s` at runs of whitespace, starting at `i` with the word `cur`
/// begun and the words `acc` done.
pub open spec fn split_ws_from(s: Seq<char>, i: int, cur: Seq<char>, acc: Seq<Seq<char>>) -> Seq<Seq<char>>
    decreases s.len() - i,
{
    if i >= s.len() {
        if cur.len() > 0 {
            acc.push(cur)
        } else {
            acc
        }
    } else if is_white_space(s[i]) {
        split_ws_from(s, i + 1, seq![], if cur.len() > 0 {
            acc.push(cur)
        } else {
            acc
        })
    } else {
        split_ws_from(s, i + 1, cur.push(s[i]), acc)
    }
}

/// The words of `s`: its maximal runs of non-whitespace characters
/// (`str::split_whitespace`).
pub open spec fn split_whitespace_spec(s: Seq<char>) -> Seq<Seq<char>> {
    split_ws_from(s, 0, seq![], seq![])
}

/// `s` with every repeated entry after its first occurrence removed.
pub open spec fn dedup_terms(s: Seq<Seq<char>>) -> Seq<Seq<char>>
    decreases s.len(),
{
    if s.len() == 0 {
        seq![]
    } else {
        let d = dedup_terms(s.drop_last());
        if d.contains(s.last()) {
            d
        } else {
            d.push(s.last())
        }
    }
}

/// The query terms: the lowercased words of the query, each kept once.
pub open spec fn query_terms_spec(q: Seq<char>) -> Seq<Seq<char>> {
    dedup_terms(split_whitespace_spec(q).map_values(|t: Seq<char>| lowercase_of(t)))
}

pub open spec fn strings_view(s: Seq<String>) -> Seq<Seq<char>> {
    s.map_values(|x: String| x@)
}

pub open spec fn char_vecs_view(s: Seq<Vec<char>>) -> Seq<Seq<char>> {
    s.map_values(|x: Vec<char>| x@)
}

fn split_words(s: &str) -> (r: Vec<Vec<char>>)
    ensures
        char_vecs_view(r@) == split_whitespace_spec(s@),
{
    let chars = chars_of(s);
    let n = chars.len();
    let mut words: Vec<Vec<char>> = Vec::new();
    let mut cur: Vec<char> = Vec::new();
    let mut i: usize = 0;
    assert(char_vecs_view(words@) =~= Seq::<Seq<char>>::empty());
    assert(cur@ =~= Seq::<char>::empty());
    while i < n
        invariant
            i <= n,
            n == chars@.len(),
            chars@ == s@,
            split_whitespace_spec(s@) == split_ws_from(s@, i as int, cur@, char_vecs_view(words@)),
        decreases n - i,
    {
        let c = chars[i];
        if char_is_whitespace(c) {
            if cur.len() > 0 {
                let ghost before = words@;
                words.push(cur);
                assert(char_vecs_view(words@) =~= char_vecs_view(before).push(cur@));
                cur = Vec::new();
            } else {
                cur = Vec::new();
            }
            assert(cur@ =~= Seq::<char>::empty());
        } else {
            cur.push(c);
        }
        i += 1;
    }
    if cur.len() > 0 {
        let ghost before = words@;
        let ghost last = cur@;
        words.push(cur);
        assert(char_vecs_view(words@) =~= char_vecs_view(before).push(last));
    }
    words
}

fn contains_string(list: &Vec<String>, x: &String) -> (r: bool)
    ensures
        r == strings_view(list@).contains(x@),
{
    let n = list.len();
    let mut i: usize = 0;
    while i < n
        invariant
            i <= n,
            n == list@.len(),
            forall|j: int| 0 <= j < i ==> list@[j]@ != x@,
        decreases n - i,
    {
        if list[i] == *x {
            assert(strings_view(list@)[i as int] == x@);
            return true;
        }
        i += 1;
    }
    assert forall|j: int| 0 <= j < n implies strings_view(list@)[j] != x@ by {
        assert(list@[j]@ != x@);
    }
    false
}

/// The query terms: the lowercased whitespace-separated words of the query,
/// each kept once, in query order.
pub fn query_terms(query: &str) -> (r: Vec<String>)
    ensures
        strings_view(r@) == query_terms_spec(query@),
{
    let words = split_words(query);
    let ghost lowered = split_whitespace_spec(query@).map_values(|t: Seq<char>| lowercase_of(t));
    let mut out: Vec<String> = Vec::new();
    let n = words.len();
    let mut i: usize = 0;
    while i < n
        invariant
            i <= n,
            n == words@.len(),
            char_vecs_view(words@) == split_whitespace_spec(query@),
            lowered == split_whitespace_spec(query@).map_values(|t: Seq<char>| lowercase_of(t)),
            strings_view(out@) == dedup_terms(lowered.take(i as int)),
        decreases n - i,
    {
        let word = crate::text::string_of(words[i].as_slice());
        let term = to_lowercase(word.as_str());
        assert(term@ == lowered[i as int]);
        assert(lowered.take(i + 1).drop_last() =~= lowered.take(i as int));
        if !contains_string(&out, &term) {
            let ghost before = out@;
            out.push(term);
            assert(strings_view(out@) =~= strings_view(before).push(lowered[i as int]));
        }
        i += 1;
    }
    assert(lowered.take(n as int) =~= lowered);
    out
}

/// The query terms, each with its characters and byte length.
pub fn search_terms(terms: &Vec<String>) -> (r: Vec<SearchTerm>)
    ensures
        terms_spec(r@) == strings_view(terms@),
        terms_wf(r@),
{
    let mut out: Vec<SearchTerm> = Vec::new();
    let n = terms.len();
    let mut i: usize = 0;
    while i < n
        invariant
            i <= n,
            n == terms@.len(),
            out@.len() == i,
            terms_spec(out@) == strings_view(terms@).take(i as int),
            terms_wf(out@),
        decreases n - i,
    {
        let t = SearchTerm { chars: chars_of(terms[i].as_str()), byte_len: str_byte_len(terms[i].as_str()) };
        let ghost before = out@;
        out.push(t);
        assert forall|q: int| 0 <= q < i + 1 implies terms_spec(out@)[q] == strings_view(terms@).take(i + 1)[q] by {
            if q < i {
                assert(out@[q] == before[q]);
                assert(terms_spec(before)[q] == strings_view(terms@).take(i as int)[q]);
            }
        }
        assert(terms_spec(out@) =~= strings_view(terms@).take(i + 1));
        assert forall|k: int| 0 <= k < out@.len() implies #[trigger] out@[k].wf() by {
            if k < i {
                assert(out@[k] == before[k]);
            }
        }
        i += 1;
    }
    assert(strings_view(terms@).take(n as int) =~= strings_view(terms@));
    out
}

// ---------------------------------------------------------------------------
// Ranking
// ---------------------------------------------------------------------------

pub open spec fn score_lt(a: ScoreSpec, b: ScoreSpec) -> bool {
    ||| a.order < b.order
    ||| a.order == b.order && a.b < b.b
    ||| a.order == b.order && a.b == b.b && a.f < b.f
    ||| a.order == b.order && a.b == b.b && a.f == b.f && a.span < b.span
    ||| a.order == b.order && a.b == b.b && a.f == b.f && a.span == b.span && a.start < b.start
}

/// A scored search result with its position among all results found.
pub struct Ranked {
    pub score: ScoreSpec,
    pub ordinal: int,
    pub cmd: CommandView,
}

/// Results rank by score, then by the order in which they were found.
pub open spec fn ranked_lt(x: Ranked, y: Ranked) -> bool {
    score_lt(x.score, y.score) || (x.score == y.score && x.ordinal < y.ordinal)
}

/// The commands of `cs` that match the terms, with their scores, in order.
pub open spec fn scored_list(cs: Seq<CommandView>, terms: Seq<Seq<char>>) -> Seq<(ScoreSpec, CommandView)>
    decreases cs.len(),
{
    if cs.len() == 0 {
        seq![]
    } else {
        let p = scored_list(cs.drop_last(), terms);
        match command_score(cs.last(), terms) {
            Some(sc) => p.push((sc, cs.last())),
            None => p,
        }
    }
}

pub open spec fn promoted(c: CommandView, label: Seq<char>) -> CommandView {
    CommandView { search_parent: Some(label), ..c }
}

pub open spec fn promote_all(kids: Seq<CommandView>, label: Seq<char>) -> Seq<CommandView> {
    kids.map_values(|k: CommandView| promoted(k, label))
}

/// The results one item contributes: itself if it matches, then, for a
/// branch whose children are searchable, its matching children promoted
/// under its name. `kids` are the children its producer returned.
pub open spec fn item_cands(v: CommandView, kids: Seq<CommandView>, terms: Seq<Seq<char>>) -> Seq<(ScoreSpec, CommandView)> {
    scored_list(seq![v], terms) + if v.search_children && v.children is Some {
        scored_list(promote_all(kids, v.name), terms)
    } else {
        seq![]
    }
}

/// The results of all items, in the order they are found.
pub open spec fn all_cands(items: Seq<CommandView>, kids: Seq<Seq<CommandView>>, terms: Seq<Seq<char>>) -> Seq<(ScoreSpec, CommandView)>
    decreases items.len(),
{
    if items.len() == 0 {
        seq![]
    } else {
        all_cands(items.drop_last(), kids, terms) + item_cands(items.last(), kids[items.len() - 1], terms)
    }
}

pub open spec fn numbered(cs: Seq<(ScoreSpec, CommandView)>) -> Seq<Ranked> {
    Seq::new(cs.len(), |i: int| Ranked { score: cs[i].0, ordinal: i, cmd: cs[i].1 })
}

/// `x` inserted before the first entry of `s` that ranks after it.
pub open spec fn insert_ranked(s: Seq<Ranked>, x: Ranked) -> Seq<Ranked>
    decreases s.len(),
{
    if s.len() == 0 {
        seq![x]
    } else if ranked_lt(x, s[0]) {
        seq![x] + s
    } else {
        seq![s[0]] + insert_ranked(s.drop_first(), x)
    }
}

/// `s` in ranking order (a stable sort by score).
pub open spec fn sort_ranked(s: Seq<Ranked>) -> Seq<Ranked>
    decreases s.len(),
{
    if s.len() == 0 {
        seq![]
    } else {
        insert_ranked(sort_ranked(s.drop_last()), s.last())
    }
}

/// The commands of `s`, keeping only the first with each id.
pub open spec fn dedup_ids(s: Seq<Ranked>) -> Seq<CommandView>
    decreases s.len(),
{
    if s.len() == 0 {
        seq![]
    } else {
        let d = dedup_ids(s.drop_last());
        if exists|j: int| 0 <= j < s.len() - 1 && #[trigger] s[j].cmd.id == s.last().cmd.id {
            d
        } else {
            d.push(s.last().cmd)
        }
    }
}

/// What the palette shows for `items` and `query`, given the children each
/// searchable branch produced: the items themselves for an empty query;
/// otherwise every matching item and promoted child, best first, the first
/// of each id only.
pub open spec fn filter_spec(items: Seq<CommandView>, kids: Seq<Seq<CommandView>>, query: Seq<char>) -> Seq<CommandView> {
    let terms = query_terms_spec(query);
    if terms.len() == 0 {
        items
    } else {
        dedup_ids(sort_ranked(numbered(all_cands(items, kids, terms))))
    }
}

pub open spec fn kids_view(k: Seq<Vec<Command>>) -> Seq<Seq<CommandView>> {
    k.map_values(|v: Vec<Command>| commands_view(v@))
}

/// A search result: its score, the position at which it was found, the command.
pub struct RankedCommand {
    pub score: SearchScore,
    pub ordinal: usize,
    pub command: Command,
}

impl View for RankedCommand {
    type V = Ranked;

    open spec fn view(&self) -> Ranked {
        Ranked { score: self.score@, ordinal: self.ordinal as int, cmd: self.command@ }
    }
}

pub open spec fn ranked_view(s: Seq<RankedCommand>) -> Seq<Ranked> {
    s.map_values(|r: RankedCommand| r@)
}

fn score_less(a: &SearchScore, b: &SearchScore) -> (r: bool)
    ensures
        r == score_lt(a@, b@),
{
    a.order_penalty < b.order_penalty || (a.order_penalty == b.order_penalty && (
    a.boundary_penalty < b.boundary_penalty || (a.boundary_penalty == b.boundary_penalty && (
    a.field_penalty < b.field_penalty || (a.field_penalty == b.field_penalty && (a.span < b.span
        || (a.span == b.span && a.start < b.start)))))))
}

fn ranked_less(x: &RankedCommand, y: &RankedCommand) -> (r: bool)
    ensures
        r == ranked_lt(x@, y@),
{
    let same = x.score.order_penalty == y.score.order_penalty && x.score.boundary_penalty
        == y.score.boundary_penalty && x.score.field_penalty == y.score.field_penalty
        && x.score.span == y.score.span && x.score.start == y.score.start;
    score_less(&x.score, &y.score) || (same && x.ordinal < y.ordinal)
}

pub proof fn lemma_insert_at(s: Seq<Ranked>, x: Ranked, k: int)
    requires
        0 <= k <= s.len(),
        forall|i: int| 0 <= i < k ==> !ranked_lt(x, #[trigger] s[i]),
        k < s.len() ==> ranked_lt(x, s[k]),
    ensures
        insert_ranked(s, x) == s.insert(k, x),
    decreases s.len(),
{
    if s.len() == 0 {
        assert(s.insert(k, x) =~= seq![x]);
    } else if k == 0 {
        assert(s.insert(0, x) =~= seq![x] + s);
    } else {
        assert(!ranked_lt(x, s[0]));
        let t = s.drop_first();
        assert forall|i: int| 0 <= i < k - 1 implies !ranked_lt(x, #[trigger] t[i]) by {
            assert(t[i] == s[i + 1]);
        }
        if k < s.len() {
            assert(t[k - 1] == s[k]);
        }
        lemma_insert_at(t, x, k - 1);
        assert(seq![s[0]] + t.insert(k - 1, x) =~= s.insert(k, x));
    }
}

/// Inserts `x` into the ranking `sorted`, after every entry that does not
/// rank after it.
fn insert_result(sorted: &mut Vec<RankedCommand>, x: RankedCommand)
    ensures
        ranked_view(final(sorted)@) == insert_ranked(ranked_view(old(sorted)@), x@),
        final(sorted)@.len() == old(sorted)@.len() + 1,
{
    let ghost s = ranked_view(sorted@);
    let n = sorted.len();
    let mut k: usize = 0;
    while k < n && !ranked_less(&x, &sorted[k])
        invariant
            k <= n,
            n == sorted@.len(),
            s == ranked_view(sorted@),
            forall|i: int| 0 <= i < k ==> !ranked_lt(x@, #[trigger] s[i]),
        decreases n - k,
    {
        k += 1;
    }
    proof {
        lemma_insert_at(s, x@, k as int);
    }
    let ghost xv = x@;
    sorted.insert(k, x);
    assert(ranked_view(sorted@) =~= s.insert(k as int, xv));
}

/// The ranking state after the candidates found so far: `sorted` holds them in
/// ranking order.
pub open spec fn ranking_ok(sorted: Seq<RankedCommand>, found: Seq<(ScoreSpec, CommandView)>) -> bool {
    ranked_view(sorted) == sort_ranked(numbered(found))
}

proof fn lemma_numbered_push(found: Seq<(ScoreSpec, CommandView)>, c: (ScoreSpec, CommandView))
    ensures
        numbered(found.push(c)) == numbered(found).push(Ranked { score: c.0, ordinal: found.len() as int, cmd: c.1 }),
        numbered(found.push(c)).drop_last() == numbered(found),
{
    assert(numbered(found.push(c)) =~= numbered(found).push(Ranked { score: c.0, ordinal: found.len() as int, cmd: c.1 }));
    assert(numbered(found.push(c)).drop_last() =~= numbered(found));
}

/// Scores `cmd` and, when it matches, adds it to the ranking.
fn rank_one(
    sorted: &mut Vec<RankedCommand>,
    Ghost(found): Ghost<Seq<(ScoreSpec, CommandView)>>,
    cmd: Command,
    terms: &Vec<SearchTerm>,
) -> (r: Ghost<Seq<(ScoreSpec, CommandView)>>)
    requires
        terms_wf(terms@),
        ranking_ok(old(sorted)@, found),
        found.len() == old(sorted)@.len(),
    ensures
        r@ == found + scored_list(seq![cmd@], terms_spec(terms@)),
        ranking_ok(final(sorted)@, r@),
        r@.len() == final(sorted)@.len(),
{
    let ghost ts = terms_spec(terms@);
    let ghost v = cmd@;
    assert(seq![v].drop_last() =~= Seq::<CommandView>::empty());
    assert(scored_list(Seq::<CommandView>::empty(), ts) =~= Seq::<(ScoreSpec, CommandView)>::empty());
    match search_score(&cmd, terms) {
        Some(score) => {
            let ordinal = sorted.len();
            let ghost entry = (score@, v);
            let x = RankedCommand { score, ordinal, command: cmd };
            proof {
                lemma_numbered_push(found, entry);
                assert(found + seq![entry] =~= found.push(entry));
            }
            insert_result(sorted, x);
            Ghost(found.push(entry))
        },
        None => {
            assert(found + Seq::<(ScoreSpec, CommandView)>::empty() =~= found);
            Ghost(found)
        },
    }
}

/// Scores every item and, for each searchable branch, its children promoted
/// under its name, and ranks them. `children[i]` are the children produced
/// for `items[i]`.
fn collect_ranking(items: &[Command], children: &Vec<Vec<Command>>, terms: &Vec<SearchTerm>) -> (r: Vec<RankedCommand>)
    requires
        children@.len() == items@.len(),
        terms_wf(terms@),
    ensures
        ranking_ok(r@, all_cands(commands_view(items@), kids_view(children@), terms_spec(terms@))),
{
    let ghost iv = commands_view(items@);
    let ghost kv = kids_view(children@);
    let ghost ts = terms_spec(terms@);
    let mut sorted: Vec<RankedCommand> = Vec::new();
    let ghost mut found: Seq<(ScoreSpec, CommandView)> = seq![];
    let n = items.len();
    let mut i: usize = 0;
    proof {
        assert(iv.take(0) =~= Seq::<CommandView>::empty());
        assert(numbered(found) =~= Seq::<Ranked>::empty());
        assert(ranked_view(sorted@) =~= Seq::<Ranked>::empty());
    }
    while i < n
        invariant
            i <= n,
            n == items@.len(),
            children@.len() == n,
            iv == commands_view(items@),
            kv == kids_view(children@),
            ts == terms_spec(terms@),
            terms_wf(terms@),
            found == all_cands(iv.take(i as int), kv, ts),
            ranking_ok(sorted@, found),
            found.len() == sorted@.len(),
        decreases n - i,
    {
        let cmd = &items[i];
        let ghost v = cmd@;
        assert(v == iv[i as int]);
        let ghost base = found;
        let Ghost(f1) = rank_one(&mut sorted, Ghost(found), cmd.clone(), terms);
        proof {
            found = f1;
        }
        if cmd.search_children && cmd.children.is_some() {
            let kids = &children[i];
            let ghost kk = commands_view(kids@);
            assert(kk == kv[i as int]);
            let ghost mid = found;
            let nk = kids.len();
            let mut k: usize = 0;
            proof {
                assert(promote_all(kk.take(0), v.name) =~= Seq::<CommandView>::empty());
                assert(scored_list(Seq::<CommandView>::empty(), ts) =~= Seq::<(ScoreSpec, CommandView)>::empty());
                assert(mid + Seq::<(ScoreSpec, CommandView)>::empty() =~= mid);
            }
            while k < nk
                invariant
                    k <= nk,
                    nk == kids@.len(),
                    kk == commands_view(kids@),
                    v == cmd@,
                    terms_wf(terms@),
                    ts == terms_spec(terms@),
                    found == mid + scored_list(promote_all(kk.take(k as int), v.name), ts),
                    ranking_ok(sorted@, found),
                    found.len() == sorted@.len(),
                decreases nk - k,
            {
                let child = kids[k].promoted_under(cmd.name.as_str());
                let ghost pc = child@;
                let Ghost(f2) = rank_one(&mut sorted, Ghost(found), child, terms);
                proof {
                    let pa = promote_all(kk.take(k + 1), v.name);
                    assert(pa.drop_last() =~= promote_all(kk.take(k as int), v.name));
                    assert(pa.last() == pc);
                    assert(seq![pc].drop_last() =~= Seq::<CommandView>::empty());
                    assert(scored_list(Seq::<CommandView>::empty(), ts) =~= Seq::<(ScoreSpec, CommandView)>::empty());
                    assert(f2 =~= mid + scored_list(pa, ts));
                    found = f2;
                }
                k += 1;
            }
            proof {
                assert(kk.take(nk as int) =~= kk);
                assert(found =~= base + item_cands(v, kk, ts));
            }
        } else {
            proof {
                assert(found =~= base + item_cands(v, kv[i as int], ts));
            }
        }
        proof {
            assert(iv.take(i + 1).drop_last() =~= iv.take(i as int));
            assert(iv.take(i + 1).last() == v);
        }
        i += 1;
    }
    assert(iv.take(n as int) =~= iv);
    sorted
}

/// The ranked commands, keeping only the first result with each id.
fn dedup_results(sorted: &Vec<RankedCommand>) -> (r: Vec<Command>)
    ensures
        commands_view(r@) == dedup_ids(ranked_view(sorted@)),
{
    let ghost s = ranked_view(sorted@);
    let mut out: Vec<Command> = Vec::new();
    let mut seen: Vec<String> = Vec::new();
    let n = sorted.len();
    let mut k: usize = 0;
    proof {
        assert(s.take(0) =~= Seq::<Ranked>::empty());
        assert(commands_view(out@) =~= Seq::<CommandView>::empty());
    }
    while k < n
        invariant
            k <= n,
            n == sorted@.len(),
            s == ranked_view(sorted@),
            commands_view(out@) == dedup_ids(s.take(k as int)),
            forall|x: Seq<char>| strings_view(seen@).contains(x) <==> exists|j: int| 0 <= j < k && #[trigger] s[j].cmd.id == x,
        decreases n - k,
    {
        let entry = &sorted[k];
        let id = &entry.command.id;
        let ghost t = s.take(k + 1);
        proof {
            assert(t.drop_last() =~= s.take(k as int));
            assert(t.last() == s[k as int]);
            assert(s[k as int].cmd.id == id@);
            assert forall|j: int| 0 <= j < t.len() - 1 implies t[j] == s[j] by {}
        }
        if !contains_string(&seen, id) {
            proof {
                assert(!exists|j: int| 0 <= j < t.len() - 1 && #[trigger] t[j].cmd.id == t.last().cmd.id);
            }
            let ghost seen_before = seen@;
            seen.push(id.clone());
            let ghost out_before = out@;
            out.push(entry.command.clone());
            proof {
                assert(commands_view(out@) =~= commands_view(out_before).push(s[k as int].cmd));
                assert(strings_view(seen@) =~= strings_view(seen_before).push(id@));
                assert forall|x: Seq<char>| strings_view(seen@).contains(x) <==> exists|j: int| 0 <= j < k + 1 && #[trigger] s[j].cmd.id == x by {
                    if strings_view(seen@).contains(x) {
                        if x != id@ {
                            let q = choose|q: int| 0 <= q < strings_view(seen@).len() && strings_view(seen@)[q] == x;
                            assert(strings_view(seen_before)[q] == x);
                            assert(strings_view(seen_before).contains(x));
                        } else {
                            assert(s[k as int].cmd.id == x);
                        }
                    }
                    if exists|j: int| 0 <= j < k + 1 && #[trigger] s[j].cmd.id == x {
                        let j = choose|j: int| 0 <= j < k + 1 && #[trigger] s[j].cmd.id == x;
                        if j < k {
                            assert(strings_view(seen_before).contains(x));
                            let q = choose|q: int| 0 <= q < strings_view(seen_before).len() && strings_view(seen_before)[q] == x;
                            assert(strings_view(seen@)[q] == x);
                        } else {
                            assert(strings_view(seen@)[strings_view(seen_before).len() as int] == x);
                        }
                    }
                }
            }
        } else {
            proof {
                let j = choose|j: int| 0 <= j < k && #[trigger] s[j].cmd.id == id@;
                assert(t[j].cmd.id == t.last().cmd.id);
                assert forall|x: Seq<char>| strings_view(seen@).contains(x) <==> exists|j: int| 0 <= j < k + 1 && #[trigger] s[j].cmd.id == x by {
                    if exists|j: int| 0 <= j < k + 1 && #[trigger] s[j].cmd.id == x {
                        let j2 = choose|j2: int| 0 <= j2 < k + 1 && #[trigger] s[j2].cmd.id == x;
                        if j2 == k {
                            assert(s[j].cmd.id == x);
                        }
                    }
                }
            }
        }
        k += 1;
    }
    assert(s.take(n as int) =~= s);
    out
}

/// Clones of `items`, in order.
pub fn clone_all(items: &[Command]) -> (r: Vec<Command>)
    ensures
        commands_view(r@) == commands_view(items@),
{
    let mut out: Vec<Command> = Vec::new();
    let n = items.len();
    let mut i: usize = 0;
    while i < n
        invariant
            i <= n,
            n == items@.len(),
            out@.len() == i,
            commands_view(out@) == commands_view(items@).take(i as int),
        decreases n - i,
    {
        let ghost before = out@;
        out.push(items[i].clone());
        proof {
            assert forall|q: int| 0 <= q < i + 1 implies commands_view(out@)[q] == commands_view(items@).take(i + 1)[q] by {
                if q < i {
                    assert(out@[q] == before[q]);
                    assert(commands_view(before)[q] == commands_view(items@).take(i as int)[q]);
                }
            }
            assert(commands_view(out@) =~= commands_view(items@).take(i + 1));
        }
        i += 1;
    }
    assert(commands_view(items@).take(n as int) =~= commands_view(items@));
    out
}

fn rank_by_terms(items: &[Command], children: &Vec<Vec<Command>>, terms: &Vec<String>) -> (r: Vec<Command>)
    requires
        children@.len() == items@.len(),
        strings_view(terms@).len() > 0,
    ensures
        commands_view(r@) == dedup_ids(sort_ranked(numbered(all_cands(commands_view(items@), kids_view(children@), strings_view(terms@))))),
{
    let st = search_terms(terms);
    let sorted = collect_ranking(items, children, &st);
    dedup_results(&sorted)
}

/// Filter `items` by `query`, given the children each searchable branch's
/// producer returned (`children[i]` for `items[i]`; ignored for the others).
///
/// An empty query returns `items` unchanged. Otherwise every
/// whitespace-separated term must match somewhere in a command's name,
/// description, group, badges, or promoted submenu parent. Matches are ranked
/// by query order, word boundaries, field relevance, and proximity; results
/// are de-duplicated by id after ranking.
pub fn rank_commands(items: &[Command], children: &Vec<Vec<Command>>, query: &str) -> (r: Vec<Command>)
    requires
        children@.len() == items@.len(),
    ensures
        commands_view(r@) == filter_spec(commands_view(items@), kids_view(children@), query@),
{
    let terms = query_terms(query);
    if terms.len() == 0 {
        return clone_all(items);
    }
    rank_by_terms(items, children, &terms)
}

/// Filter `items` by `query` for display in the palette.
///
/// An empty query returns `items` unchanged (the menu, with branches shown as
/// drill-ins). Otherwise every whitespace-separated term must match somewhere
/// in a command's name, description, group, badges, or promoted submenu parent.
/// Matches are ranked by query order, word boundaries, field relevance, and
/// proximity. Searchable branch children are surfaced inline and results are
/// de-duplicated by id after ranking.
///
/// The children of each searchable branch come from its producer, which may
/// read live data; the result is `filter_spec` for whatever lists they returned.
pub fn filter_commands(items: &[Command], query: &str) -> (r: Vec<Command>)
    ensures
        exists|kids: Seq<Seq<CommandView>>|
            kids.len() == items@.len() && commands_view(r@) == filter_spec(commands_view(items@), kids, query@),
        query_terms_spec(query@).len() == 0 ==> commands_view(r@) == commands_view(items@),
        query_terms_spec(query@).len() > 0 ==> exists|kids: Seq<Vec<Command>>|
            #![trigger kids_view(kids)]
            kids.len() == items@.len() && (forall|i: int|
                0 <= i < items@.len() && searches_kids(items@[i]@) ==> produced_by(
                    items@[i]@.children.unwrap(),
                    #[trigger] kids[i]@,
                )) && commands_view(r@) == filter_spec(commands_view(items@), kids_view(kids), query@),
{
    let terms = query_terms(query);
    if terms.len() == 0 {
        let r = clone_all(items);
        assert(filter_spec(commands_view(items@), Seq::new(items@.len(), |i: int| Seq::<CommandView>::empty()), query@) == commands_view(items@));
        return r;
    }
    let mut produced: Vec<Vec<Command>> = Vec::new();
    let n = items.len();
    let mut i: usize = 0;
    while i < n
        invariant
            i <= n,
            n == items@.len(),
            produced@.len() == i,
            forall|q: int|
                0 <= q < i && searches_kids(items@[q]@) ==> produced_by(
                    items@[q]@.children.unwrap(),
                    #[trigger] produced@[q]@,
                ),
        decreases n - i,
    {
        let cmd = &items[i];
        let kids = if cmd.search_children {
            match cmd.resolve_children() {
                Some(c) => c,
                None => Vec::new(),
            }
        } else {
            Vec::new()
        };
        let ghost before = produced@;
        produced.push(kids);
        proof {
            assert forall|q: int|
                0 <= q < i + 1 && searches_kids(items@[q]@) implies produced_by(
                    items@[q]@.children.unwrap(),
                    #[trigger] produced@[q]@,
                ) by {
                if q < i {
                    assert(produced@[q] == before[q]);
                }
            }
        }
        i += 1;
    }
    let r = rank_by_terms(items, &produced, &terms);
    assert(commands_view(r@) == filter_spec(commands_view(items@), kids_view(produced@), query@));
    assert(produced@.len() == items@.len());
    r
}

} // verus!
