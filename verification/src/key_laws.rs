//! What each key does, and what the menus show for it.

use crate::engine::{Command, HistoryStatus};
use crate::geometry::Page;
use crate::shortcuts::{
    all_bindings, bound_action, first_pressed, first_shown, lower, lowered, uppered,
    AppAction, BindingView, Key, Modifiers, Platform,
};
use crate::ui::{Action, ViewAction};
use crate::window_input::{key_response, KeyResponse};
use vstd::prelude::*;
use vstd::string::*;

verus! {

/// The modifier of shortcuts is held: Command on macOS, Control elsewhere.
pub open spec fn shortcut_held(mods: Modifiers, platform: Platform) -> bool {
    match platform {
        Platform::MacOs => mods.super_key,
        Platform::Other => mods.control,
    }
}

/// The key typed this one character.
pub open spec fn types(key: Key, c: char) -> bool {
    key matches Key::Character(text) && text@ == seq![c]
}

proof fn lemma_texts()
    ensures
        "z"@ == seq!['z'],
        "y"@ == seq!['y'],
        "="@ == seq!['='],
        "+"@ == seq!['+'],
        "-"@ == seq!['-'],
        "_"@ == seq!['_'],
        "0"@ == seq!['0'],
{
    reveal_strlit("z");
    reveal_strlit("y");
    reveal_strlit("=");
    reveal_strlit("+");
    reveal_strlit("-");
    reveal_strlit("_");
    reveal_strlit("0");
    assert("z"@ =~= seq!['z']);
    assert("y"@ =~= seq!['y']);
    assert("="@ =~= seq!['=']);
    assert("+"@ =~= seq!['+']);
    assert("-"@ =~= seq!['-']);
    assert("_"@ =~= seq!['_']);
    assert("0"@ =~= seq!['0']);
}

/// A text is one key exactly if it is that character, in either case for a letter.
proof fn lemma_lowered_is(text: Seq<char>, c: char, d: char)
    requires
        lower(d) == c,
        lower(c) == c,
        forall|x: char| #[trigger] lower(x) == c ==> x == c || x == d,
    ensures
        lowered(text) == seq![c] <==> text == seq![c] || text == seq![d],
{
    if lowered(text) == seq![c] {
        assert(lowered(text).len() == 1);
        assert(lowered(text)[0] == c);
        assert(lower(text[0]) == c);
        assert(text =~= seq![c] || text =~= seq![d]);
    }
    if text == seq![c] || text == seq![d] {
        assert(lowered(text) =~= seq![c]);
    }
}

proof fn lemma_other_is(text: Seq<char>, c: char)
    requires
        lower(c) == c,
        forall|x: char| #[trigger] lower(x) == c ==> x == c,
    ensures
        lowered(text) == seq![c] <==> text == seq![c],
{
    lemma_lowered_is(text, c, c);
}

proof fn lemma_keys_of_one(k: Seq<char>, t: Seq<char>)
    ensures
        seq![k].contains(t) <==> t == k,
{
    if t == k {
        assert(seq![k][0] == t);
    }
}

proof fn lemma_keys_of_two(k: Seq<char>, l: Seq<char>, t: Seq<char>)
    ensures
        seq![k, l].contains(t) <==> t == k || t == l,
{
    if t == k {
        assert(seq![k, l][0] == t);
    }
    if t == l {
        assert(seq![k, l][1] == t);
    }
}

/// The first of a table of shortcuts that is pressed, table entry by table entry.
proof fn lemma_first_of(
    table: Seq<BindingView>,
    text: Seq<char>,
    mods: Modifiers,
    platform: Platform,
)
    requires
        table.len() > 0,
    ensures
        first_pressed(table, text, mods, platform) == if table[0].is_pressed(
            text,
            mods,
            platform,
        ) {
            Some(table[0].action)
        } else {
            first_pressed(table.skip(1), text, mods, platform)
        },
{
    assert(table.drop_first() =~= table.skip(1));
}

/// Which keys are shortcuts, and what for: with the modifier of the platform held, Z undoes, and
/// redoes with Shift; Y redoes without Shift, but not on macOS; `=` and `+` zoom in, `-` and `_`
/// zoom out; 0 zooms to the natural size without Shift. Letters count in either case. No other
/// key is a shortcut.
pub proof fn lemma_each_key_has_its_action(key: Key, mods: Modifiers, platform: Platform)
    ensures
        ({
            let held = shortcut_held(mods, platform);
            let z = types(key, 'z') || types(key, 'Z');
            let y = types(key, 'y') || types(key, 'Y');
            let action = bound_action(key, mods, platform);
            &&& action == Some(AppAction::Edit(Action::Undo)) <==> held && z && !mods.shift
            &&& action == Some(AppAction::Edit(Action::Redo)) <==> held && (z && mods.shift || y
                && !mods.shift && platform == Platform::Other)
            &&& action == Some(AppAction::View(ViewAction::ZoomIn)) <==> held && (types(key, '=')
                || types(key, '+'))
            &&& action == Some(AppAction::View(ViewAction::ZoomOut)) <==> held && (types(key, '-')
                || types(key, '_'))
            &&& action == Some(AppAction::View(ViewAction::ZoomTo100)) <==> held && types(key, '0')
                && !mods.shift
            &&& action matches Some(AppAction::View(view)) ==> view is ZoomIn || view is ZoomOut
                || view is ZoomTo100
        }),
{
    lemma_texts();
    match key {
        Key::Character(text) => {
            let t = lowered(text@);
            lemma_lowered_is(text@, 'z', 'Z');
            lemma_lowered_is(text@, 'y', 'Y');
            lemma_other_is(text@, '=');
            lemma_other_is(text@, '+');
            lemma_other_is(text@, '-');
            lemma_other_is(text@, '_');
            lemma_other_is(text@, '0');
            lemma_keys_of_one("z"@, t);
            lemma_keys_of_one("y"@, t);
            lemma_keys_of_one("0"@, t);
            lemma_keys_of_two("="@, "+"@, t);
            lemma_keys_of_two("-"@, "_"@, t);
            assert(seq!['z'][0] == 'z' && seq!['y'][0] == 'y' && seq!['='][0] == '='
                && seq!['+'][0] == '+' && seq!['-'][0] == '-' && seq!['_'][0] == '_'
                && seq!['0'][0] == '0');
            lemma_table_in_turn(text@, mods, platform);
        },
        Key::Named => {},
    }
}

proof fn lemma_table_in_turn(text: Seq<char>, mods: Modifiers, platform: Platform)
    ensures
        ({
            let table = all_bindings(platform);
            let n = table.len() as int;
            first_pressed(table, text, mods, platform) == if table[0].is_pressed(
                text,
                mods,
                platform,
            ) {
                Some(table[0].action)
            } else if table[1].is_pressed(text, mods, platform) {
                Some(table[1].action)
            } else if platform == Platform::Other && table[2].is_pressed(text, mods, platform) {
                Some(table[2].action)
            } else if table[n - 3].is_pressed(text, mods, platform) {
                Some(table[n - 3].action)
            } else if table[n - 2].is_pressed(text, mods, platform) {
                Some(table[n - 2].action)
            } else if table[n - 1].is_pressed(text, mods, platform) {
                Some(table[n - 1].action)
            } else {
                None
            }
        }),
{
    let table = all_bindings(platform);
    lemma_first_of(table, text, mods, platform);
    lemma_first_of(table.skip(1), text, mods, platform);
    assert(table.skip(1).skip(1) =~= table.skip(2));
    lemma_first_of(table.skip(2), text, mods, platform);
    assert(table.skip(2).skip(1) =~= table.skip(3));
    lemma_first_of(table.skip(3), text, mods, platform);
    assert(table.skip(3).skip(1) =~= table.skip(4));
    lemma_first_of(table.skip(4), text, mods, platform);
    assert(table.skip(4).skip(1) =~= table.skip(5));
    if platform == Platform::Other {
        lemma_first_of(table.skip(5), text, mods, platform);
        assert(table.skip(5).skip(1) =~= Seq::<BindingView>::empty());
    } else {
        assert(table.skip(5) =~= Seq::<BindingView>::empty());
    }
}

/// What a key press leads to: an action of the history is sent where the history allows it, and
/// else nothing happens; a zoom goes to the view. A key that is not to be taken does nothing.
pub proof fn lemma_each_key_response(
    ignored: bool,
    action: Option<AppAction>,
    history: HistoryStatus,
    page: Page,
)
    ensures
        ({
            let res = key_response(ignored, action, history, page);
            &&& ignored || action is None ==> res is Ignore
            &&& !ignored && action == Some(AppAction::Edit(Action::Undo)) ==> {
                &&& history.can_undo ==> res == KeyResponse::Send(Command::Undo)
                &&& !history.can_undo ==> res is Ignore
            }
            &&& !ignored && action == Some(AppAction::Edit(Action::Redo)) ==> {
                &&& history.can_redo ==> res == KeyResponse::Send(Command::Redo)
                &&& !history.can_redo ==> res is Ignore
            }
            &&& !ignored && action == Some(AppAction::View(ViewAction::ZoomIn)) ==> res
                == KeyResponse::View(ViewAction::ZoomIn)
            &&& !ignored && action == Some(AppAction::View(ViewAction::ZoomOut)) ==> res
                == KeyResponse::View(ViewAction::ZoomOut)
            &&& !ignored && action == Some(AppAction::View(ViewAction::ZoomTo100)) ==> res
                == KeyResponse::View(ViewAction::ZoomTo100)
        }),
{
}

/// What the menus show: the modifier of the platform, Shift for redo, and the key in upper case.
/// Actions without a key show nothing.
pub proof fn lemma_menu_texts(platform: Platform)
    ensures
        ({
            let table = all_bindings(platform);
            let mac = platform == Platform::MacOs;
            let accel = if mac {
                "⌘"@
            } else {
                "Ctrl+"@
            };
            let shift = if mac {
                "⇧"@
            } else {
                "Shift+"@
            };
            let shown = |a: AppAction| first_shown(table, a, platform);
            &&& shown(AppAction::Edit(Action::Undo)) == Some(accel + seq!['Z'])
            &&& shown(AppAction::Edit(Action::Redo)) == Some(accel + shift + seq!['Z'])
            &&& shown(AppAction::View(ViewAction::ZoomIn)) == Some(accel + seq!['='])
            &&& shown(AppAction::View(ViewAction::ZoomOut)) == Some(accel + seq!['-'])
            &&& shown(AppAction::View(ViewAction::ZoomTo100)) == Some(accel + seq!['0'])
            &&& shown(AppAction::View(ViewAction::ZoomToFit)) is None
            &&& shown(AppAction::View(ViewAction::ResetView)) is None
        }),
{
    lemma_texts();
    lemma_shown_of(platform, AppAction::Edit(Action::Undo));
    lemma_shown_of(platform, AppAction::Edit(Action::Redo));
    lemma_shown_of(platform, AppAction::View(ViewAction::ZoomIn));
    lemma_shown_of(platform, AppAction::View(ViewAction::ZoomOut));
    lemma_shown_of(platform, AppAction::View(ViewAction::ZoomTo100));
    lemma_shown_of(platform, AppAction::View(ViewAction::ZoomToFit));
    lemma_shown_of(platform, AppAction::View(ViewAction::ResetView));
    let table = all_bindings(platform);
    let n = table.len() as int;
    assert(uppered(seq!['z']) =~= seq!['Z']);
    assert(uppered(seq!['=']) =~= seq!['=']);
    assert(uppered(seq!['-']) =~= seq!['-']);
    assert(uppered(seq!['0']) =~= seq!['0']);
    let accel = table[0].accel.prefix(platform);
    let none = Seq::<char>::empty();
    assert(accel + none =~= accel);
}

/// The first of a table that is shown, entry by entry.
proof fn lemma_shown_of(platform: Platform, action: AppAction)
    ensures
        ({
            let table = all_bindings(platform);
            let n = table.len() as int;
            first_shown(table, action, platform) == if table[0].action == action {
                Some(table[0].shown(platform))
            } else if table[1].action == action {
                Some(table[1].shown(platform))
            } else if table[n - 3].action == action {
                Some(table[n - 3].shown(platform))
            } else if table[n - 2].action == action {
                Some(table[n - 2].shown(platform))
            } else if table[n - 1].action == action {
                Some(table[n - 1].shown(platform))
            } else {
                None
            }
        }),
{
    reveal_with_fuel(first_shown, 8);
    let table = all_bindings(platform);
    assert(table.drop_first() =~= table.skip(1));
    assert(table.skip(1).drop_first() =~= table.skip(2));
    assert(table.skip(2).drop_first() =~= table.skip(3));
    assert(table.skip(3).drop_first() =~= table.skip(4));
    assert(table.skip(4).drop_first() =~= table.skip(5));
    if platform == Platform::Other {
        assert(table.skip(5).drop_first() =~= Seq::<BindingView>::empty());
    } else {
        assert(table.skip(5) =~= Seq::<BindingView>::empty());
    }
}

} // verus!
