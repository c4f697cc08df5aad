//! The keyboard shortcuts. One table holds every binding; both what a key press does and what
//! a menu shows come from it.

use crate::ui::{Action, ViewAction};
use vstd::prelude::*;
use vstd::string::*;

verus! {

/// `String::push` appends the character.
pub assume_specification[ String::push ](s: &mut String, c: char)
    ensures
        final(s)@ == old(s)@.push(c),
;

/// The platform whose conventions apply.
#[derive(Debug, Clone, Copy, PartialEq, Eq, Hash, Structural)]
pub enum Platform {
    MacOs,
    Other,
}

/// A key as the window system reports it.
#[derive(Debug, Clone, PartialEq, Eq)]
pub enum Key {
    /// A key that types text.
    Character(String),
    /// Any other key.
    Named,
}

/// The modifier keys that are held.
#[derive(Debug, Clone, Copy, PartialEq, Eq, Hash, Structural, Default)]
pub struct Modifiers {
    pub shift: bool,
    pub control: bool,
    pub alt: bool,
    pub super_key: bool,
}

/// Everything that can be bound to a key.
#[derive(Debug, Clone, Copy, PartialEq, Eq, Hash, Structural)]
pub enum AppAction {
    Edit(Action),
    View(ViewAction),
}

/// The modifier that makes a key a shortcut.
#[derive(Debug, Clone, Copy, PartialEq, Eq, Hash, Structural)]
pub enum Accel {
    /// Command on macOS, Control elsewhere.
    Primary,
    /// Control everywhere.
    Ctrl,
}

impl Accel {
    /// The modifier is among those held.
    pub open spec fn is_held(self, mods: Modifiers, platform: Platform) -> bool {
        match self {
            Accel::Primary => if platform == Platform::MacOs {
                mods.super_key
            } else {
                mods.control
            },
            Accel::Ctrl => mods.control,
        }
    }

    /// What a menu shows for the modifier.
    pub open spec fn prefix(self, platform: Platform) -> Seq<char> {
        if self == Accel::Primary && platform == Platform::MacOs {
            "⌘"@
        } else {
            "Ctrl+"@
        }
    }

    /// Whether the modifier is among those held.
    pub fn held(self, mods: Modifiers, platform: Platform) -> (res: bool)
        ensures
            res == self.is_held(mods, platform),
    {
        match self {
            Accel::Primary => match platform {
                Platform::MacOs => mods.super_key,
                Platform::Other => mods.control,
            },
            Accel::Ctrl => mods.control,
        }
    }

    /// What a menu shows for the modifier.
    pub fn display_prefix(self, platform: Platform) -> (res: &'static str)
        ensures
            res@ == self.prefix(platform),
    {
        match self {
            Accel::Primary => match platform {
                Platform::MacOs => "⌘",
                Platform::Other => "Ctrl+",
            },
            Accel::Ctrl => "Ctrl+",
        }
    }
}

/// Whether Shift must be held. `Either` is for a key that types another character with
/// Shift, where both are meant.
#[derive(Debug, Clone, Copy, PartialEq, Eq, Hash, Structural)]
pub enum ShiftReq {
    Required,
    Forbidden,
    Either,
}

impl ShiftReq {
    /// The state of Shift is as required.
    pub open spec fn is_met(self, shift: bool) -> bool {
        match self {
            ShiftReq::Required => shift,
            ShiftReq::Forbidden => !shift,
            ShiftReq::Either => true,
        }
    }
}

/// One shortcut.
#[derive(Debug)]
pub struct Binding {
    /// The characters, in lower case, that a key press of this shortcut may report. The
    /// first one is shown in menus.
    pub keys: Vec<&'static str>,
    pub accel: Accel,
    pub shift: ShiftReq,
    pub action: AppAction,
}

/// The mathematical content of a binding.
#[verifier::ext_equal]
pub struct BindingView {
    pub keys: Seq<Seq<char>>,
    pub accel: Accel,
    pub shift: ShiftReq,
    pub action: AppAction,
}

/// The contents of a list of keys.
pub open spec fn key_views(keys: Seq<&'static str>) -> Seq<Seq<char>> {
    keys.map_values(|k: &'static str| k@)
}

impl View for Binding {
    type V = BindingView;

    open spec fn view(&self) -> BindingView {
        BindingView {
            keys: key_views(self.keys@),
            accel: self.accel,
            shift: self.shift,
            action: self.action,
        }
    }
}

/// The contents of a table of bindings.
pub open spec fn binding_views(bindings: Seq<Binding>) -> Seq<BindingView> {
    bindings.map_values(|b: Binding| b@)
}

/// An ASCII letter in lower case; any other character as it is.
pub open spec fn lower(c: char) -> char {
    if 'A' <= c && c <= 'Z' {
        (c as u32 + 32) as char
    } else {
        c
    }
}

/// An ASCII letter in upper case; any other character as it is.
pub open spec fn upper(c: char) -> char {
    if 'a' <= c && c <= 'z' {
        (c as u32 - 32) as char
    } else {
        c
    }
}

/// A text with its ASCII letters in lower case.
pub open spec fn lowered(s: Seq<char>) -> Seq<char> {
    s.map_values(|c: char| lower(c))
}

/// A text with its ASCII letters in upper case.
pub open spec fn uppered(s: Seq<char>) -> Seq<char> {
    s.map_values(|c: char| upper(c))
}

impl BindingView {
    /// A key press that reports `text` with `mods` held is this shortcut.
    pub open spec fn is_pressed(self, text: Seq<char>, mods: Modifiers, platform: Platform) -> bool {
        &&& self.keys.contains(lowered(text))
        &&& self.accel.is_held(mods, platform)
        &&& self.shift.is_met(mods.shift)
    }

    /// What a menu shows for the shortcut.
    pub open spec fn shown(self, platform: Platform) -> Seq<char> {
        self.accel.prefix(platform) + (if self.shift == ShiftReq::Required {
            if platform == Platform::MacOs {
                "⇧"@
            } else {
                "Shift+"@
            }
        } else {
            Seq::empty()
        }) + uppered(self.keys[0])
    }
}

/// The table of all shortcuts of a platform.
pub open spec fn all_bindings(platform: Platform) -> Seq<BindingView> {
    let undo = BindingView {
        keys: seq!["z"@],
        accel: Accel::Primary,
        shift: ShiftReq::Forbidden,
        action: AppAction::Edit(Action::Undo),
    };
    let redo = BindingView {
        keys: seq!["z"@],
        accel: Accel::Primary,
        shift: ShiftReq::Required,
        action: AppAction::Edit(Action::Redo),
    };
    let redo_again = BindingView {
        keys: seq!["y"@],
        accel: Accel::Primary,
        shift: ShiftReq::Forbidden,
        action: AppAction::Edit(Action::Redo),
    };
    let zoom_in = BindingView {
        keys: seq!["="@, "+"@],
        accel: Accel::Primary,
        shift: ShiftReq::Either,
        action: AppAction::View(ViewAction::ZoomIn),
    };
    let zoom_out = BindingView {
        keys: seq!["-"@, "_"@],
        accel: Accel::Primary,
        shift: ShiftReq::Either,
        action: AppAction::View(ViewAction::ZoomOut),
    };
    let zoom_to_100 = BindingView {
        keys: seq!["0"@],
        accel: Accel::Primary,
        shift: ShiftReq::Forbidden,
        action: AppAction::View(ViewAction::ZoomTo100),
    };
    if platform == Platform::MacOs {
        seq![undo, redo, zoom_in, zoom_out, zoom_to_100]
    } else {
        seq![undo, redo, redo_again, zoom_in, zoom_out, zoom_to_100]
    }
}

/// The action of the first binding in the table that the key press is.
pub open spec fn first_pressed(
    table: Seq<BindingView>,
    text: Seq<char>,
    mods: Modifiers,
    platform: Platform,
) -> Option<AppAction>
    decreases table.len(),
{
    if table.len() == 0 {
        None
    } else if table.first().is_pressed(text, mods, platform) {
        Some(table.first().action)
    } else {
        first_pressed(table.drop_first(), text, mods, platform)
    }
}

/// What a menu shows for the first binding of the action in the table.
pub open spec fn first_shown(table: Seq<BindingView>, action: AppAction, platform: Platform) -> Option<
    Seq<char>,
>
    decreases table.len(),
{
    if table.len() == 0 {
        None
    } else if table.first().action == action {
        Some(table.first().shown(platform))
    } else {
        first_shown(table.drop_first(), action, platform)
    }
}

fn lower_char(c: char) -> (res: char)
    ensures
        res == lower(c),
{
    if 'A' <= c && c <= 'Z' {
        ((c as u8) + 32) as char
    } else {
        c
    }
}

fn upper_char(c: char) -> (res: char)
    ensures
        res == upper(c),
{
    if 'a' <= c && c <= 'z' {
        ((c as u8) - 32) as char
    } else {
        c
    }
}

/// Whether the text is the key but for the case of ASCII letters.
fn is_key(text: &str, key: &str) -> (res: bool)
    ensures
        res == (lowered(text@) == key@),
{
    let n: usize = text.unicode_len();
    if n != key.unicode_len() {
        return false;
    }
    let mut i: usize = 0;
    while i < n
        invariant
            n == text@.len() == key@.len(),
            i <= n,
            forall|j: int| 0 <= j < i ==> lower(text@[j]) == #[trigger] key@[j],
        decreases n - i,
    {
        if lower_char(text.get_char(i)) != key.get_char(i) {
            assert(lowered(text@)[i as int] != key@[i as int]);
            return false;
        }
        i = i + 1;
    }
    assert(lowered(text@) =~= key@);
    true
}

impl Binding {
    /// Whether a key press is this shortcut.
    pub fn matches(&self, key: &Key, mods: Modifiers, platform: Platform) -> (res: bool)
        ensures
            res == (key matches Key::Character(text) && self@.is_pressed(text@, mods, platform)),
    {
        let text = match key {
            Key::Character(text) => text.as_str(),
            Key::Named => return false,
        };
        let mut found: bool = false;
        let mut i: usize = 0;
        while i < self.keys.len()
            invariant
                i <= self.keys.len(),
                found == exists|j: int| 0 <= j < i && #[trigger] self@.keys[j] == lowered(text@),
            decreases self.keys.len() - i,
        {
            assert(self@.keys[i as int] == self.keys@[i as int]@);
            if is_key(text, self.keys[i]) {
                found = true;
            }
            i = i + 1;
        }
        assert(found == self@.keys.contains(lowered(text@)));
        found && self.accel.held(mods, platform) && match self.shift {
            ShiftReq::Required => mods.shift,
            ShiftReq::Forbidden => !mods.shift,
            ShiftReq::Either => true,
        }
    }

    /// What a menu shows for the shortcut.
    pub fn display(&self, platform: Platform) -> (res: String)
        requires
            self.keys@.len() > 0,
        ensures
            res@ == self@.shown(platform),
    {
        let mut res = String::new();
        res.append(self.accel.display_prefix(platform));
        if let ShiftReq::Required = self.shift {
            match platform {
                Platform::MacOs => res.append("⇧"),
                Platform::Other => res.append("Shift+"),
            }
        }
        let key = self.keys[0];
        assert(key@ == self@.keys[0]);
        let ghost start = res@;
        let n: usize = key.unicode_len();
        let mut i: usize = 0;
        assert(res@ =~= start + uppered(key@).take(0));
        while i < n
            invariant
                n == key@.len(),
                i <= n,
                res@ == start + uppered(key@).take(i as int),
            decreases n - i,
        {
            res.push(upper_char(key.get_char(i)));
            assert(uppered(key@).take(i + 1) =~= uppered(key@).take(i as int).push(
                upper(key@[i as int]),
            ));
            assert(res@ =~= start + uppered(key@).take(i + 1));
            i = i + 1;
        }
        assert(uppered(key@).take(i as int) =~= uppered(key@));
        assert(res@ =~= self@.shown(platform));
        res
    }
}

fn one_key(key: &'static str) -> (res: Vec<&'static str>)
    ensures
        key_views(res@) == seq![key@],
{
    let mut keys: Vec<&'static str> = Vec::new();
    keys.push(key);
    assert(key_views(keys@) =~= seq![key@]);
    keys
}

fn two_keys(first: &'static str, second: &'static str) -> (res: Vec<&'static str>)
    ensures
        key_views(res@) == seq![first@, second@],
{
    let mut keys: Vec<&'static str> = Vec::new();
    keys.push(first);
    keys.push(second);
    assert(key_views(keys@) =~= seq![first@, second@]);
    keys
}

/// The table of all shortcuts of a platform. Where an action has several, the one shown in
/// menus comes first.
pub fn bindings(platform: Platform) -> (res: Vec<Binding>)
    ensures
        binding_views(res@) == all_bindings(platform),
{
    let mut res: Vec<Binding> = Vec::new();
    res.push(
        Binding {
            keys: one_key("z"),
            accel: Accel::Primary,
            shift: ShiftReq::Forbidden,
            action: AppAction::Edit(Action::Undo),
        },
    );
    res.push(
        Binding {
            keys: one_key("z"),
            accel: Accel::Primary,
            shift: ShiftReq::Required,
            action: AppAction::Edit(Action::Redo),
        },
    );
    // On macOS this key is taken by the system.
    if let Platform::Other = platform {
        res.push(
            Binding {
                keys: one_key("y"),
                accel: Accel::Primary,
                shift: ShiftReq::Forbidden,
                action: AppAction::Edit(Action::Redo),
            },
        );
    }
    res.push(
        Binding {
            keys: two_keys("=", "+"),
            accel: Accel::Primary,
            shift: ShiftReq::Either,
            action: AppAction::View(ViewAction::ZoomIn),
        },
    );
    res.push(
        Binding {
            keys: two_keys("-", "_"),
            accel: Accel::Primary,
            shift: ShiftReq::Either,
            action: AppAction::View(ViewAction::ZoomOut),
        },
    );
    res.push(
        Binding {
            keys: one_key("0"),
            accel: Accel::Primary,
            shift: ShiftReq::Forbidden,
            action: AppAction::View(ViewAction::ZoomTo100),
        },
    );
    assert(binding_views(res@) =~= all_bindings(platform));
    res
}

/// The action that a key press is bound to: that of the first shortcut which it matches.
pub open spec fn bound_action(key: Key, mods: Modifiers, platform: Platform) -> Option<AppAction> {
    match key {
        Key::Character(text) => first_pressed(all_bindings(platform), text@, mods, platform),
        Key::Named => None,
    }
}

/// The action that a key press is bound to.
#[must_use]
pub fn resolve(key: &Key, mods: Modifiers, platform: Platform) -> (res: Option<AppAction>)
    ensures
        res == bound_action(*key, mods, platform),
{
    let table = bindings(platform);
    let ghost views = all_bindings(platform);
    let mut i: usize = 0;
    assert(views.skip(0) =~= views);
    while i < table.len()
        invariant
            i <= table.len(),
            views == binding_views(table@),
            views == all_bindings(platform),
            key matches Key::Character(text) ==> first_pressed(views, text@, mods, platform)
                == first_pressed(views.skip(i as int), text@, mods, platform),
        decreases table.len() - i,
    {
        assert(views[i as int] == table@[i as int]@);
        assert(views.skip(i as int).drop_first() =~= views.skip(i + 1));
        if table[i].matches(key, mods, platform) {
            return Some(table[i].action);
        }
        i = i + 1;
    }
    assert(views.skip(i as int) =~= Seq::<BindingView>::empty());
    None
}

/// What a menu shows for an action, or `None` where no key is bound to it.
#[must_use]
pub fn display_for(action: AppAction, platform: Platform) -> (res: Option<String>)
    ensures
        match first_shown(all_bindings(platform), action, platform) {
            Some(shown) => res is Some && res->0@ == shown,
            None => res is None,
        },
{
    let table = bindings(platform);
    let ghost views = all_bindings(platform);
    let mut i: usize = 0;
    assert(views.skip(0) =~= views);
    while i < table.len()
        invariant
            i <= table.len(),
            views == binding_views(table@),
            views == all_bindings(platform),
            first_shown(views, action, platform) == first_shown(
                views.skip(i as int),
                action,
                platform,
            ),
        decreases table.len() - i,
    {
        assert(views[i as int] == table@[i as int]@);
        assert(views.skip(i as int).drop_first() =~= views.skip(i + 1));
        if table[i].action == action {
            assert(table@[i as int]@.keys.len() > 0);
            return Some(table[i].display(platform));
        }
        i = i + 1;
    }
    assert(views.skip(i as int) =~= Seq::<BindingView>::empty());
    None
}

/// The texts of the keys, told apart.
proof fn lemma_key_texts()
    ensures
        "z"@ == seq!['z'],
        "y"@ == seq!['y'],
        "="@ == seq!['='],
        "+"@ == seq!['+'],
        "-"@ == seq!['-'],
        "_"@ == seq!['_'],
        "0"@ == seq!['0'],
{
    reveal_strlit("z");
    reveal_strlit("y");
    reveal_strlit("=");
    reveal_strlit("+");
    reveal_strlit("-");
    reveal_strlit("_");
    reveal_strlit("0");
    assert("z"@ =~= seq!['z']);
    assert("y"@ =~= seq!['y']);
    assert("="@ =~= seq!['=']);
    assert("+"@ =~= seq!['+']);
    assert("-"@ =~= seq!['-']);
    assert("_"@ =~= seq!['_']);
    assert("0"@ =~= seq!['0']);
}

/// No key press is two shortcuts with different actions.
pub proof fn lemma_no_conflicting_bindings(
    platform: Platform,
    i: int,
    j: int,
    text: Seq<char>,
    mods: Modifiers,
)
    requires
        0 <= i < all_bindings(platform).len(),
        0 <= j < all_bindings(platform).len(),
        all_bindings(platform)[i].is_pressed(text, mods, platform),
        all_bindings(platform)[j].is_pressed(text, mods, platform),
    ensures
        all_bindings(platform)[i].action == all_bindings(platform)[j].action,
{
    lemma_key_texts();
    let t = lowered(text);
    let a = all_bindings(platform)[i];
    let b = all_bindings(platform)[j];
    let m = choose|m: int| 0 <= m < a.keys.len() && a.keys[m] == t;
    let n = choose|n: int| 0 <= n < b.keys.len() && b.keys[n] == t;
    assert(a.keys[m] == t && b.keys[n] == t);
    assert(t.len() == 1);
    assert(a.keys[m][0] == t[0] && b.keys[n][0] == t[0]);
}

/// Pressing any key of a shortcut, in either case, with its modifiers held carries out its
/// action.
pub proof fn lemma_each_binding_resolves(
    platform: Platform,
    i: int,
    text: Seq<char>,
    mods: Modifiers,
)
    requires
        0 <= i < all_bindings(platform).len(),
        all_bindings(platform)[i].is_pressed(text, mods, platform),
    ensures
        first_pressed(all_bindings(platform), text, mods, platform) == Some(
            all_bindings(platform)[i].action,
        ),
{
    let table = all_bindings(platform);
    lemma_first_pressed_is_pressed(table, i, text, mods, platform);
    let k = choose|k: int|
        0 <= k < table.len() && #[trigger] table[k].is_pressed(text, mods, platform)
            && first_pressed(table, text, mods, platform) == Some(table[k].action);
    lemma_no_conflicting_bindings(platform, i, k, text, mods);
}

proof fn lemma_first_pressed_is_pressed(
    table: Seq<BindingView>,
    i: int,
    text: Seq<char>,
    mods: Modifiers,
    platform: Platform,
)
    requires
        0 <= i < table.len(),
        table[i].is_pressed(text, mods, platform),
    ensures
        exists|k: int|
            0 <= k < table.len() && #[trigger] table[k].is_pressed(text, mods, platform)
                && first_pressed(table, text, mods, platform) == Some(table[k].action),
    decreases table.len(),
{
    if table.first().is_pressed(text, mods, platform) {
        assert(table[0].is_pressed(text, mods, platform));
    } else {
        let rest = table.drop_first();
        assert(rest[i - 1] == table[i]);
        lemma_first_pressed_is_pressed(rest, i - 1, text, mods, platform);
        let k = choose|k: int|
            0 <= k < rest.len() && #[trigger] rest[k].is_pressed(text, mods, platform)
                && first_pressed(rest, text, mods, platform) == Some(rest[k].action);
        assert(table[k + 1].is_pressed(text, mods, platform));
    }
}

/// What a menu shows for an action is what one of its shortcuts is: a shortcut exists exactly
/// where something is shown.
pub proof fn lemma_menu_shows_a_binding(table: Seq<BindingView>, action: AppAction, platform: Platform)
    ensures
        match first_shown(table, action, platform) {
            Some(shown) => exists|k: int|
                0 <= k < table.len() && (#[trigger] table[k]).action == action
                    && table[k].shown(platform) == shown,
            None => forall|k: int| 0 <= k < table.len() ==> (#[trigger] table[k]).action != action,
        },
    decreases table.len(),
{
    if table.len() > 0 {
        let rest = table.drop_first();
        if table.first().action == action {
            assert(table[0].action == action);
        } else {
            lemma_menu_shows_a_binding(rest, action, platform);
            match first_shown(table, action, platform) {
                Some(shown) => {
                    let k = choose|k: int|
                        0 <= k < rest.len() && (#[trigger] rest[k]).action == action
                            && rest[k].shown(platform) == shown;
                    assert(table[k + 1].action == action);
                },
                None => {
                    assert forall|k: int| 0 <= k < table.len() implies (
                    #[trigger] table[k]).action != action by {
                        if k > 0 {
                            assert(rest[k - 1].action != action);
                        }
                    }
                },
            }
        }
    }
}

} // verus!
