//! The application's theme: a neutral grey interface defined by its dark mode,
//! around a base of #444444, with light mode read from it. The palette here is
//! the one source of every colour; what draws its own colours asks for a role
//! here.
use vstd::prelude::*;
use serde_json::Value;
use crate::text::{push_all, string_of};

verus! {

/// Every role of the theme, for one mode, as 0xRRGGBB.
#[derive(Clone, Copy, Debug, PartialEq, Eq, Structural)]
pub struct Palette {
    /// Where content is read or written: the editor, code, answers.
    pub well: u32,
    /// Text inputs, lists, trees.
    pub recessed: u32,
    /// The window and its panels.
    pub base: u32,
    /// Buttons, tab bars, headers, cards.
    pub raised: u32,
    pub hover: u32,
    pub pressed: u32,
    /// A selected row or tab without focus.
    pub selected: u32,
    /// Menus, popovers, tooltips, inset panels.
    pub overlay: u32,
    pub text: u32,
    /// Muted text.
    pub text_secondary: u32,
    /// Dimmer than muted: help text, placeholders.
    pub text_tertiary: u32,
    pub text_disabled: u32,
    /// Dividers between areas and rows.
    pub line: u32,
    /// The border of controls, inputs, and floating surfaces.
    pub edge: u32,
    /// Focus, selected tabs' underlines, links, accent text.
    pub accent: u32,
    /// Primary buttons, a selected item in a focused list.
    pub accent_fill: u32,
    pub success: u32,
    pub warning: u32,
    pub error: u32,
    pub purple: u32,
    pub cyan: u32,
    /// How much black dims the window behind a modal surface, in hundredths.
    pub dim: u8,
}

/// Dark mode, which defines the theme.
pub open spec fn dark_palette() -> Palette {
    Palette {
        well: 0x2e2e2e,
        recessed: 0x383838,
        base: 0x444444,
        raised: 0x4e4e4e,
        hover: 0x585858,
        pressed: 0x3c3c3c,
        selected: 0x5e5e5e,
        overlay: 0x4a4a4a,
        text: 0xebebeb,
        text_secondary: 0xc4c4c4,
        text_tertiary: 0x9c9c9c,
        text_disabled: 0x7a7a7a,
        line: 0x3a3a3a,
        edge: 0x2a2a2a,
        accent: 0x7fb4ea,
        accent_fill: 0x3d6a98,
        success: 0x8fd095,
        warning: 0xe6bb68,
        error: 0xf0928a,
        purple: 0xbba0e6,
        cyan: 0x78c8ce,
        dim: 40,
    }
}

/// Dark mode, which defines the theme.
pub fn dark() -> (r: Palette)
    ensures
        r == dark_palette(),
{
    Palette {
        well: 0x2e2e2e,
        recessed: 0x383838,
        base: 0x444444,
        raised: 0x4e4e4e,
        hover: 0x585858,
        pressed: 0x3c3c3c,
        selected: 0x5e5e5e,
        overlay: 0x4a4a4a,
        text: 0xebebeb,
        text_secondary: 0xc4c4c4,
        text_tertiary: 0x9c9c9c,
        text_disabled: 0x7a7a7a,
        line: 0x3a3a3a,
        edge: 0x2a2a2a,
        accent: 0x7fb4ea,
        accent_fill: 0x3d6a98,
        success: 0x8fd095,
        warning: 0xe6bb68,
        error: 0xf0928a,
        purple: 0xbba0e6,
        cyan: 0x78c8ce,
        dim: 40,
    }
}

/// Light mode.
pub open spec fn light_palette() -> Palette {
    Palette {
        well: 0xf5f5f5,
        recessed: 0xe8e8e8,
        base: 0xd0d0d0,
        raised: 0xdadada,
        hover: 0xe2e2e2,
        pressed: 0xc6c6c6,
        selected: 0xbcbcbc,
        overlay: 0xdcdcdc,
        text: 0x1e1e1e,
        text_secondary: 0x454545,
        text_tertiary: 0x636363,
        text_disabled: 0x8c8c8c,
        line: 0xbdbdbd,
        edge: 0xa6a6a6,
        accent: 0x1f5fa6,
        accent_fill: 0x2b68ad,
        success: 0x2c6e31,
        warning: 0x8a5a00,
        error: 0xb3261e,
        purple: 0x6b4aa6,
        cyan: 0x1f6f78,
        dim: 25,
    }
}

/// Light mode.
pub fn light() -> (r: Palette)
    ensures
        r == light_palette(),
{
    Palette {
        well: 0xf5f5f5,
        recessed: 0xe8e8e8,
        base: 0xd0d0d0,
        raised: 0xdadada,
        hover: 0xe2e2e2,
        pressed: 0xc6c6c6,
        selected: 0xbcbcbc,
        overlay: 0xdcdcdc,
        text: 0x1e1e1e,
        text_secondary: 0x454545,
        text_tertiary: 0x636363,
        text_disabled: 0x8c8c8c,
        line: 0xbdbdbd,
        edge: 0xa6a6a6,
        accent: 0x1f5fa6,
        accent_fill: 0x2b68ad,
        success: 0x2c6e31,
        warning: 0x8a5a00,
        error: 0xb3261e,
        purple: 0x6b4aa6,
        cyan: 0x1f6f78,
        dim: 25,
    }
}

/// How much of the accent fill selected text is laid over with.
pub const SELECTION_ALPHA: u8 = 0x59;

pub const DARK_NAME: &'static str = "Suspense Dark";

pub const LIGHT_NAME: &'static str = "Suspense Light";

/// The palette of a mode.
pub fn palette(dark: bool) -> (r: Palette)
    ensures
        r == (if dark {
            dark_palette()
        } else {
            light_palette()
        }),
{
    if dark {
        self::dark()
    } else {
        light()
    }
}

/// What a mode's theme is called.
pub fn theme_name(dark: bool) -> (r: &'static str)
    ensures
        r@ == (if dark {
            DARK_NAME@
        } else {
            LIGHT_NAME@
        }),
{
    if dark {
        DARK_NAME
    } else {
        LIGHT_NAME
    }
}

/// A hue for what is shown, as the theme gives it.
#[derive(Clone, Copy, Debug, PartialEq, Eq, Structural)]
pub enum Hue {
    Blue,
    Cyan,
    Purple,
    Green,
    Amber,
    Red,
    Grey,
}

impl Hue {
    pub fn of(self, palette: &Palette) -> (r: u32)
        ensures
            r == (match self {
                Hue::Blue => palette.accent,
                Hue::Cyan => palette.cyan,
                Hue::Purple => palette.purple,
                Hue::Green => palette.success,
                Hue::Amber => palette.warning,
                Hue::Red => palette.error,
                Hue::Grey => palette.text_tertiary,
            }),
    {
        match self {
            Hue::Blue => palette.accent,
            Hue::Cyan => palette.cyan,
            Hue::Purple => palette.purple,
            Hue::Green => palette.success,
            Hue::Amber => palette.warning,
            Hue::Red => palette.error,
            Hue::Grey => palette.text_tertiary,
        }
    }
}

// ---------------------------------------------------------------------------
// Colours as text
// ---------------------------------------------------------------------------

/// A digit of a colour.
pub open spec fn hex_digit(n: nat) -> char {
    if n < 10 {
        ('0' as u8 + n) as char
    } else {
        ('a' as u8 + (n - 10)) as char
    }
}

/// A number in base sixteen, in at least `width` digits.
pub open spec fn hex_digits(n: nat, width: nat) -> Seq<char>
    decreases n, width,
{
    if n < 16 && width <= 1 {
        seq![hex_digit(n)]
    } else {
        hex_digits(
            n / 16,
            if width > 0 {
                (width - 1) as nat
            } else {
                0
            },
        ).push(hex_digit(n % 16))
    }
}

pub open spec fn hex_text(color: u32) -> Seq<char> {
    seq!['#'] + hex_digits(color as nat, 6)
}

pub open spec fn hex_alpha_text(color: u32, alpha: u8) -> Seq<char> {
    hex_text(color) + hex_digits(alpha as nat, 2)
}

fn digit_of(n: u32) -> (c: char)
    requires
        n < 16,
    ensures
        c == hex_digit(n as nat),
{
    if n < 10 {
        (48u8 + n as u8) as char
    } else {
        (87u8 + n as u8) as char
    }
}

fn digits_of(n: u32, width: usize) -> (r: Vec<char>)
    ensures
        r@ == hex_digits(n as nat, width as nat),
    decreases n, width,
{
    if n < 16 && width <= 1 {
        let mut r: Vec<char> = Vec::new();
        r.push(digit_of(n));
        proof {
            assert(r@ =~= seq![hex_digit(n as nat)]);
        }
        r
    } else {
        let rest: usize = if width > 0 {
            width - 1
        } else {
            0
        };
        let mut r = digits_of(n / 16, rest);
        r.push(digit_of(n % 16));
        r
    }
}

fn hex_chars(color: u32) -> (r: Vec<char>)
    ensures
        r@ == hex_text(color),
{
    let mut r: Vec<char> = Vec::new();
    r.push('#');
    proof {
        assert(r@ =~= seq!['#']);
    }
    push_all(&mut r, &digits_of(color, 6));
    r
}

/// A colour as the theme's configuration writes it.
pub fn hex(color: u32) -> (r: String)
    ensures
        r@ == hex_text(color),
{
    string_of(&hex_chars(color))
}

/// A colour as the theme's configuration writes it, let through by `alpha`.
pub fn hex_alpha(color: u32, alpha: u8) -> (r: String)
    ensures
        r@ == hex_alpha_text(color, alpha),
{
    let mut r = hex_chars(color);
    push_all(&mut r, &digits_of(alpha as u32, 2));
    string_of(&r)
}

// ---------------------------------------------------------------------------
// The configuration
// ---------------------------------------------------------------------------

/// `serde_json::Map`, the members of a JSON object.
#[verifier::external_type_specification]
#[verifier::external_body]
#[verifier::reject_recursive_types(K)]
#[verifier::reject_recursive_types(V)]
pub struct ExMembers<K, V>(serde_json::Map<K, V>);

/// The members that are strings, by their keys.
pub uninterp spec fn text_entries(members: serde_json::Map<String, Value>) -> Map<
    Seq<char>,
    Seq<char>,
>;

/// Every member by its key, as the JSON it is written as.
pub uninterp spec fn entries(members: serde_json::Map<String, Value>) -> Map<Seq<char>, Seq<char>>;

/// No members.
pub open spec fn nothing_set() -> Map<Seq<char>, Seq<char>> {
    Map::empty()
}

/// `serde_json::Map::new`: no members.
#[verifier::external_body]
fn no_members() -> (r: serde_json::Map<String, Value>)
    ensures
        text_entries(r) == nothing_set(),
        entries(r) == nothing_set(),
{
    serde_json::Map::new()
}

/// `serde_json::Map::insert` of a string: the member with that key is the
/// string, whatever it was, and the others, strings or not, are as they were.
#[verifier::external_body]
fn set_text(members: &mut serde_json::Map<String, Value>, key: String, value: String)
    ensures
        text_entries(*final(members)) == text_entries(*old(members)).insert(key@, value@),
        entries(*final(members)).contains_key(key@),
        entries(*final(members)).remove(key@) == entries(*old(members)).remove(key@),
{
    members.insert(key, Value::String(value));
}

/// What is painted in what.
pub open spec fn paints(v: Seq<(&'static str, String)>) -> Seq<(Seq<char>, Seq<char>)> {
    v.map_values(|p: (&'static str, String)| (p.0@, p.1@))
}

/// Members with some more set, in order.
pub open spec fn with_set(
    members: Map<Seq<char>, Seq<char>>,
    more: Seq<(Seq<char>, Seq<char>)>,
) -> Map<Seq<char>, Seq<char>>
    decreases more.len(),
{
    if more.len() == 0 {
        members
    } else {
        with_set(members, more.drop_last()).insert(more.last().0, more.last().1)
    }
}

/// Whether a key is among those of some members.
pub open spec fn sets(more: Seq<(Seq<char>, Seq<char>)>, key: Seq<char>) -> bool {
    exists|k: int| 0 <= k < more.len() && (#[trigger] more[k]).0 == key
}

/// Whether, beside some members that are now there, all are as they were.
pub open spec fn others_kept(
    before: Map<Seq<char>, Seq<char>>,
    after: Map<Seq<char>, Seq<char>>,
    more: Seq<(Seq<char>, Seq<char>)>,
) -> bool {
    forall|key: Seq<char>|
        if sets(more, key) {
            #[trigger] after.contains_key(key)
        } else {
            after.contains_key(key) == before.contains_key(key) && (before.contains_key(key)
                ==> after[key] == before[key])
        }
}

proof fn lemma_one_more_kept(
    start: Map<Seq<char>, Seq<char>>,
    before: Map<Seq<char>, Seq<char>>,
    after: Map<Seq<char>, Seq<char>>,
    all: Seq<(Seq<char>, Seq<char>)>,
    i: int,
)
    requires
        0 <= i < all.len(),
        others_kept(start, before, all.take(i)),
        after.contains_key(all[i].0),
        after.remove(all[i].0) == before.remove(all[i].0),
    ensures
        others_kept(start, after, all.take(i + 1)),
{
    let was = all.take(i);
    let now = all.take(i + 1);
    assert forall|key: Seq<char>|
        if sets(now, key) {
            #[trigger] after.contains_key(key)
        } else {
            after.contains_key(key) == start.contains_key(key) && (start.contains_key(key)
                ==> after[key] == start[key])
        } by {
        assert(now[i] == all[i]);
        if key != all[i].0 {
            assert(after.remove(all[i].0).contains_key(key) == after.contains_key(key));
            assert(before.remove(all[i].0).contains_key(key) == before.contains_key(key));
            if before.contains_key(key) {
                assert(after.remove(all[i].0)[key] == after[key]);
                assert(before.remove(all[i].0)[key] == before[key]);
            }
            if sets(now, key) {
                let k = choose|k: int| 0 <= k < now.len() && (#[trigger] now[k]).0 == key;
                assert(was[k].0 == key);
            }
            if sets(was, key) {
                let k = choose|k: int| 0 <= k < was.len() && (#[trigger] was[k]).0 == key;
                assert(now[k].0 == key);
            }
        } else {
            assert(sets(now, key));
        }
    }
}

/// Whether every member is a string: those that are have the keys of all.
pub open spec fn only_text(
    text: Map<Seq<char>, Seq<char>>,
    all: Map<Seq<char>, Seq<char>>,
) -> bool {
    forall|key: Seq<char>| #[trigger] all.contains_key(key) == text.contains_key(key)
}

proof fn lemma_one_more_text(
    text: Map<Seq<char>, Seq<char>>,
    before: Map<Seq<char>, Seq<char>>,
    after: Map<Seq<char>, Seq<char>>,
    key: Seq<char>,
    value: Seq<char>,
)
    requires
        only_text(text, before),
        after.contains_key(key),
        after.remove(key) == before.remove(key),
    ensures
        only_text(text.insert(key, value), after),
{
    let now = text.insert(key, value);
    assert forall|k: Seq<char>| #[trigger] after.contains_key(k) == now.contains_key(k) by {
        if k != key {
            assert(after.remove(key).contains_key(k) == after.contains_key(k));
            assert(before.remove(key).contains_key(k) == before.contains_key(k));
            assert(before.contains_key(k) == text.contains_key(k));
        }
    }
}

fn set_all(members: &mut serde_json::Map<String, Value>, more: Vec<(&'static str, String)>)
    ensures
        only_text(text_entries(*old(members)), entries(*old(members))) ==> only_text(
            text_entries(*final(members)),
            entries(*final(members)),
        ),
        text_entries(*final(members)) == with_set(text_entries(*old(members)), paints(more@)),
        others_kept(entries(*old(members)), entries(*final(members)), paints(more@)),
{
    let ghost all = paints(more@);
    let ghost start = text_entries(*members);
    let mut i: usize = 0;
    while i < more.len()
        invariant
            i <= more@.len(),
            all == paints(more@),
            text_entries(*members) == with_set(start, all.take(i as int)),
            others_kept(entries(*old(members)), entries(*members), all.take(i as int)),
            only_text(text_entries(*old(members)), entries(*old(members))) ==> only_text(
                text_entries(*members),
                entries(*members),
            ),
        decreases more@.len() - i,
    {
        let ghost had = entries(*members);
        let ghost text = text_entries(*members);
        proof {
            assert(all.take(i + 1).drop_last() =~= all.take(i as int));
            assert(all.take(i + 1).last() == all[i as int]);
        }
        set_text(members, more[i].0.to_owned(), more[i].1.clone());
        proof {
            lemma_one_more_kept(
                entries(*old(members)),
                had,
                entries(*members),
                all,
                i as int,
            );
            if only_text(text, had) {
                lemma_one_more_text(text, had, entries(*members), all[i as int].0, all[i as int].1);
            }
        }
        i += 1;
    }
    proof {
        assert(all.take(all.len() as int) =~= all);
    }
}

impl Palette {
    /// How much black dims the window behind a modal surface, of 255.
    pub open spec fn dim_alpha(self) -> u8 {
        let dim = (self.dim * 255 + 50) / 100;
        if dim > 255 {
            255
        } else {
            dim as u8
        }
    }

    fn dim_over(&self) -> (r: u8)
        ensures
            r == self.dim_alpha(),
    {
        let dim: u32 = (self.dim as u32 * 255 + 50) / 100;
        if dim > 255 {
            255
        } else {
            dim as u8
        }
    }
}

/// The colour of text on a solid status or accent colour: dark over dark mode's
/// light hues, white over light mode's dark ones.
pub open spec fn on_hue(dark: bool) -> u32 {
    if dark {
        0x2a2a2a
    } else {
        0xffffff
    }
}

pub open spec fn fill_hover(dark: bool) -> u32 {
    if dark {
        0x4877a6
    } else {
        0x3674ba
    }
}

pub open spec fn fill_active(dark: bool) -> u32 {
    if dark {
        0x335a82
    } else {
        0x245a96
    }
}

/// The window, its text and its lines.
pub open spec fn plain_of(p: Palette) -> Seq<(Seq<char>, Seq<char>)> {
    seq![
        ("background"@, hex_text(p.base)),
        ("foreground"@, hex_text(p.text)),
        ("border"@, hex_text(p.edge)),
        ("input.border"@, hex_text(p.edge)),
        ("window.border"@, hex_text(p.edge)),
        ("caret"@, hex_text(p.text)),
        ("ring"@, hex_text(p.accent)),
        ("overlay"@, hex_alpha_text(0x000000, p.dim_alpha())),
        ("selection.background"@, hex_alpha_text(p.accent_fill, SELECTION_ALPHA)),
    ]
}

fn plain(p: &Palette) -> (r: Vec<(&'static str, String)>)
    ensures
        paints(r@) == plain_of(*p),
{
    let dim: u8 = p.dim_over();
    let r: Vec<(&'static str, String)> = vec![
        ("background", hex(p.base)),
        ("foreground", hex(p.text)),
        ("border", hex(p.edge)),
        ("input.border", hex(p.edge)),
        ("window.border", hex(p.edge)),
        ("caret", hex(p.text)),
        ("ring", hex(p.accent)),
        ("overlay", hex_alpha(0x000000, dim)),
        ("selection.background", hex_alpha(p.accent_fill, SELECTION_ALPHA)),
    ];
    proof {
        assert(paints(r@) =~= plain_of(*p));
    }
    r
}

/// Surfaces.
pub open spec fn surfaces_of(p: Palette) -> Seq<(Seq<char>, Seq<char>)> {
    seq![
        ("muted.background"@, hex_text(p.recessed)),
        ("muted.foreground"@, hex_text(p.text_secondary)),
        ("accent.background"@, hex_text(p.hover)),
        ("accent.foreground"@, hex_text(p.text)),
        ("accordion.background"@, hex_text(p.base)),
        ("popover.background"@, hex_text(p.overlay)),
        ("popover.foreground"@, hex_text(p.text)),
        ("tiles.background"@, hex_text(p.base)),
        ("group_box.background"@, hex_text(p.raised)),
        ("group_box.foreground"@, hex_text(p.text)),
        ("group_box.title.foreground"@, hex_text(p.text_secondary)),
        ("description_list.label.background"@, hex_text(p.raised)),
        ("description_list.label.foreground"@, hex_text(p.text_secondary)),
        ("skeleton.background"@, hex_text(p.raised)),
    ]
}

fn surfaces(p: &Palette) -> (r: Vec<(&'static str, String)>)
    ensures
        paints(r@) == surfaces_of(*p),
{
    let r: Vec<(&'static str, String)> = vec![
        ("muted.background", hex(p.recessed)),
        ("muted.foreground", hex(p.text_secondary)),
        ("accent.background", hex(p.hover)),
        ("accent.foreground", hex(p.text)),
        ("accordion.background", hex(p.base)),
        ("popover.background", hex(p.overlay)),
        ("popover.foreground", hex(p.text)),
        ("tiles.background", hex(p.base)),
        ("group_box.background", hex(p.raised)),
        ("group_box.foreground", hex(p.text)),
        ("group_box.title.foreground", hex(p.text_secondary)),
        ("description_list.label.background", hex(p.raised)),
        ("description_list.label.foreground", hex(p.text_secondary)),
        ("skeleton.background", hex(p.raised)),
    ];
    proof {
        assert(paints(r@) =~= surfaces_of(*p));
    }
    r
}

/// Buttons.
pub open spec fn buttons_of(p: Palette, dark: bool) -> Seq<(Seq<char>, Seq<char>)> {
    seq![
        ("primary.background"@, hex_text(p.accent_fill)),
        ("primary.hover.background"@, hex_text(fill_hover(dark))),
        ("primary.active.background"@, hex_text(fill_active(dark))),
        ("primary.foreground"@, hex_text(0xffffff)),
        ("secondary.background"@, hex_text(p.raised)),
        ("secondary.hover.background"@, hex_text(p.hover)),
        ("secondary.active.background"@, hex_text(p.pressed)),
        ("secondary.foreground"@, hex_text(p.text)),
        ("button.background"@, hex_text(p.raised)),
        ("button.hover.background"@, hex_text(p.hover)),
        ("button.active.background"@, hex_text(p.pressed)),
        ("button.foreground"@, hex_text(p.text)),
        ("button.primary.background"@, hex_text(p.accent_fill)),
        ("button.primary.hover.background"@, hex_text(fill_hover(dark))),
        ("button.primary.active.background"@, hex_text(fill_active(dark))),
        ("button.primary.foreground"@, hex_text(0xffffff)),
    ]
}

fn buttons(p: &Palette, dark: bool) -> (r: Vec<(&'static str, String)>)
    ensures
        paints(r@) == buttons_of(*p, dark),
{
    let (fill_hover, fill_active) = if dark {
        (0x4877a6u32, 0x335a82u32)
    } else {
        (0x3674bau32, 0x245a96u32)
    };
    let r: Vec<(&'static str, String)> = vec![
        ("primary.background", hex(p.accent_fill)),
        ("primary.hover.background", hex(fill_hover)),
        ("primary.active.background", hex(fill_active)),
        ("primary.foreground", hex(0xffffff)),
        ("secondary.background", hex(p.raised)),
        ("secondary.hover.background", hex(p.hover)),
        ("secondary.active.background", hex(p.pressed)),
        ("secondary.foreground", hex(p.text)),
        ("button.background", hex(p.raised)),
        ("button.hover.background", hex(p.hover)),
        ("button.active.background", hex(p.pressed)),
        ("button.foreground", hex(p.text)),
        ("button.primary.background", hex(p.accent_fill)),
        ("button.primary.hover.background", hex(fill_hover)),
        ("button.primary.active.background", hex(fill_active)),
        ("button.primary.foreground", hex(0xffffff)),
    ];
    proof {
        assert(paints(r@) =~= buttons_of(*p, dark));
    }
    r
}

/// What says how things went, and links.
pub open spec fn statuses_of(p: Palette, dark: bool) -> Seq<(Seq<char>, Seq<char>)> {
    seq![
        ("danger.background"@, hex_text(p.error)),
        ("danger.hover.background"@, hex_text(p.error)),
        ("danger.active.background"@, hex_text(p.error)),
        ("danger.foreground"@, hex_text(on_hue(dark))),
        ("success.background"@, hex_text(p.success)),
        ("success.hover.background"@, hex_text(p.success)),
        ("success.active.background"@, hex_text(p.success)),
        ("success.foreground"@, hex_text(on_hue(dark))),
        ("warning.background"@, hex_text(p.warning)),
        ("warning.hover.background"@, hex_text(p.warning)),
        ("warning.active.background"@, hex_text(p.warning)),
        ("warning.foreground"@, hex_text(on_hue(dark))),
        ("info.background"@, hex_text(p.accent)),
        ("info.hover.background"@, hex_text(p.accent)),
        ("info.active.background"@, hex_text(p.accent)),
        ("info.foreground"@, hex_text(on_hue(dark))),
        ("link"@, hex_text(p.accent)),
        ("link.hover"@, hex_text(p.accent)),
        ("link.active"@, hex_text(p.accent)),
    ]
}

fn statuses(p: &Palette, dark: bool) -> (r: Vec<(&'static str, String)>)
    ensures
        paints(r@) == statuses_of(*p, dark),
{
    let on: u32 = if dark {
        0x2a2a2a
    } else {
        0xffffff
    };
    let r: Vec<(&'static str, String)> = vec![
        ("danger.background", hex(p.error)),
        ("danger.hover.background", hex(p.error)),
        ("danger.active.background", hex(p.error)),
        ("danger.foreground", hex(on)),
        ("success.background", hex(p.success)),
        ("success.hover.background", hex(p.success)),
        ("success.active.background", hex(p.success)),
        ("success.foreground", hex(on)),
        ("warning.background", hex(p.warning)),
        ("warning.hover.background", hex(p.warning)),
        ("warning.active.background", hex(p.warning)),
        ("warning.foreground", hex(on)),
        ("info.background", hex(p.accent)),
        ("info.hover.background", hex(p.accent)),
        ("info.active.background", hex(p.accent)),
        ("info.foreground", hex(on)),
        ("link", hex(p.accent)),
        ("link.hover", hex(p.accent)),
        ("link.active", hex(p.accent)),
    ];
    proof {
        assert(paints(r@) =~= statuses_of(*p, dark));
    }
    r
}

/// Lists and tables.
pub open spec fn lists_of(p: Palette) -> Seq<(Seq<char>, Seq<char>)> {
    seq![
        ("list.background"@, hex_text(p.recessed)),
        ("list.even.background"@, hex_alpha_text(p.recessed, 0)),
        ("list.head.background"@, hex_text(p.raised)),
        ("list.hover.background"@, hex_text(p.hover)),
        ("list.active.background"@, hex_text(p.selected)),
        ("list.active.border"@, hex_text(p.accent)),
        ("table.background"@, hex_text(p.well)),
        ("table.even.background"@, hex_alpha_text(p.well, 0)),
        ("table.head.background"@, hex_text(p.raised)),
        ("table.head.foreground"@, hex_text(p.text_secondary)),
        ("table.foot.background"@, hex_text(p.raised)),
        ("table.foot.foreground"@, hex_text(p.text_secondary)),
        ("table.hover.background"@, hex_text(p.hover)),
        ("table.active.background"@, hex_text(p.selected)),
        ("table.active.border"@, hex_text(p.accent)),
        ("table.row.border"@, hex_text(p.line)),
    ]
}

fn lists(p: &Palette) -> (r: Vec<(&'static str, String)>)
    ensures
        paints(r@) == lists_of(*p),
{
    let r: Vec<(&'static str, String)> = vec![
        ("list.background", hex(p.recessed)),
        ("list.even.background", hex_alpha(p.recessed, 0)),
        ("list.head.background", hex(p.raised)),
        ("list.hover.background", hex(p.hover)),
        ("list.active.background", hex(p.selected)),
        ("list.active.border", hex(p.accent)),
        ("table.background", hex(p.well)),
        ("table.even.background", hex_alpha(p.well, 0)),
        ("table.head.background", hex(p.raised)),
        ("table.head.foreground", hex(p.text_secondary)),
        ("table.foot.background", hex(p.raised)),
        ("table.foot.foreground", hex(p.text_secondary)),
        ("table.hover.background", hex(p.hover)),
        ("table.active.background", hex(p.selected)),
        ("table.active.border", hex(p.accent)),
        ("table.row.border", hex(p.line)),
    ];
    proof {
        assert(paints(r@) =~= lists_of(*p));
    }
    r
}

/// Tabs, bars and the sidebar.
pub open spec fn bars_of(p: Palette) -> Seq<(Seq<char>, Seq<char>)> {
    seq![
        ("tab.background"@, hex_alpha_text(p.raised, 0)),
        ("tab.foreground"@, hex_text(p.text_secondary)),
        ("tab.active.background"@, hex_text(p.base)),
        ("tab.active.foreground"@, hex_text(p.text)),
        ("tab_bar.background"@, hex_text(p.raised)),
        ("tab_bar.segmented.background"@, hex_text(p.recessed)),
        ("title_bar.background"@, hex_text(p.raised)),
        ("title_bar.border"@, hex_text(p.line)),
        ("status_bar.background"@, hex_text(p.raised)),
        ("status_bar.border"@, hex_text(p.line)),
        ("sidebar.background"@, hex_text(p.base)),
        ("sidebar.foreground"@, hex_text(p.text)),
        ("sidebar.border"@, hex_text(p.line)),
        ("sidebar.accent.background"@, hex_text(p.hover)),
        ("sidebar.accent.foreground"@, hex_text(p.text)),
        ("sidebar.primary.background"@, hex_text(p.accent_fill)),
        ("sidebar.primary.foreground"@, hex_text(0xffffff)),
    ]
}

fn bars(p: &Palette) -> (r: Vec<(&'static str, String)>)
    ensures
        paints(r@) == bars_of(*p),
{
    let r: Vec<(&'static str, String)> = vec![
        ("tab.background", hex_alpha(p.raised, 0)),
        ("tab.foreground", hex(p.text_secondary)),
        ("tab.active.background", hex(p.base)),
        ("tab.active.foreground", hex(p.text)),
        ("tab_bar.background", hex(p.raised)),
        ("tab_bar.segmented.background", hex(p.recessed)),
        ("title_bar.background", hex(p.raised)),
        ("title_bar.border", hex(p.line)),
        ("status_bar.background", hex(p.raised)),
        ("status_bar.border", hex(p.line)),
        ("sidebar.background", hex(p.base)),
        ("sidebar.foreground", hex(p.text)),
        ("sidebar.border", hex(p.line)),
        ("sidebar.accent.background", hex(p.hover)),
        ("sidebar.accent.foreground", hex(p.text)),
        ("sidebar.primary.background", hex(p.accent_fill)),
        ("sidebar.primary.foreground", hex(0xffffff)),
    ];
    proof {
        assert(paints(r@) =~= bars_of(*p));
    }
    r
}

/// Controls.
pub open spec fn controls_of(p: Palette) -> Seq<(Seq<char>, Seq<char>)> {
    seq![
        ("scrollbar.background"@, hex_alpha_text(p.recessed, 0)),
        ("scrollbar.thumb.background"@, hex_text(p.pressed)),
        ("scrollbar.thumb.hover.background"@, hex_text(p.hover)),
        ("switch.background"@, hex_text(p.pressed)),
        ("switch.thumb.background"@, hex_text(p.text)),
        ("slider.background"@, hex_text(p.accent)),
        ("slider.thumb.background"@, hex_text(p.text)),
        ("progress.bar.background"@, hex_text(p.accent)),
        ("drag.border"@, hex_text(p.accent)),
        ("drop_target.background"@, hex_alpha_text(p.accent_fill, 0x40)),
    ]
}

fn controls(p: &Palette) -> (r: Vec<(&'static str, String)>)
    ensures
        paints(r@) == controls_of(*p),
{
    let r: Vec<(&'static str, String)> = vec![
        ("scrollbar.background", hex_alpha(p.recessed, 0)),
        ("scrollbar.thumb.background", hex(p.pressed)),
        ("scrollbar.thumb.hover.background", hex(p.hover)),
        ("switch.background", hex(p.pressed)),
        ("switch.thumb.background", hex(p.text)),
        ("slider.background", hex(p.accent)),
        ("slider.thumb.background", hex(p.text)),
        ("progress.bar.background", hex(p.accent)),
        ("drag.border", hex(p.accent)),
        ("drop_target.background", hex_alpha(p.accent_fill, 0x40)),
    ];
    proof {
        assert(paints(r@) =~= controls_of(*p));
    }
    r
}

/// Charts, and the hues by name.
pub open spec fn charts_of(p: Palette) -> Seq<(Seq<char>, Seq<char>)> {
    seq![
        ("chart.1"@, hex_text(p.accent)),
        ("chart.2"@, hex_text(p.cyan)),
        ("chart.3"@, hex_text(p.purple)),
        ("chart.4"@, hex_text(p.success)),
        ("chart.5"@, hex_text(p.warning)),
        ("chart_bullish"@, hex_text(p.success)),
        ("chart_bearish"@, hex_text(p.error)),
        ("base.red"@, hex_text(p.error)),
        ("base.red.light"@, hex_text(p.error)),
        ("base.green"@, hex_text(p.success)),
        ("base.green.light"@, hex_text(p.success)),
        ("base.blue"@, hex_text(p.accent)),
        ("base.blue.light"@, hex_text(p.accent)),
        ("base.yellow"@, hex_text(p.warning)),
        ("base.yellow.light"@, hex_text(p.warning)),
        ("base.magenta"@, hex_text(p.purple)),
        ("base.magenta.light"@, hex_text(p.purple)),
        ("base.cyan"@, hex_text(p.cyan)),
        ("base.cyan.light"@, hex_text(p.cyan)),
    ]
}

fn charts(p: &Palette) -> (r: Vec<(&'static str, String)>)
    ensures
        paints(r@) == charts_of(*p),
{
    let r: Vec<(&'static str, String)> = vec![
        ("chart.1", hex(p.accent)),
        ("chart.2", hex(p.cyan)),
        ("chart.3", hex(p.purple)),
        ("chart.4", hex(p.success)),
        ("chart.5", hex(p.warning)),
        ("chart_bullish", hex(p.success)),
        ("chart_bearish", hex(p.error)),
        ("base.red", hex(p.error)),
        ("base.red.light", hex(p.error)),
        ("base.green", hex(p.success)),
        ("base.green.light", hex(p.success)),
        ("base.blue", hex(p.accent)),
        ("base.blue.light", hex(p.accent)),
        ("base.yellow", hex(p.warning)),
        ("base.yellow.light", hex(p.warning)),
        ("base.magenta", hex(p.purple)),
        ("base.magenta.light", hex(p.purple)),
        ("base.cyan", hex(p.cyan)),
        ("base.cyan.light", hex(p.cyan)),
    ];
    proof {
        assert(paints(r@) =~= charts_of(*p));
    }
    r
}

/// Every colour of the theme, by what it paints.
pub open spec fn colors_of(p: Palette, dark: bool) -> Map<Seq<char>, Seq<char>> {
    let set = with_set(nothing_set(), plain_of(p));
    let set = with_set(set, surfaces_of(p));
    let set = with_set(set, buttons_of(p, dark));
    let set = with_set(set, statuses_of(p, dark));
    let set = with_set(set, lists_of(p));
    let set = with_set(set, bars_of(p));
    let set = with_set(set, controls_of(p));
    with_set(set, charts_of(p))
}

/// Every colour of the theme in a mode, by what it paints, and nothing else.
pub fn colors(p: &Palette, dark: bool) -> (r: serde_json::Map<String, Value>)
    ensures
        text_entries(r) == colors_of(*p, dark),
        only_text(colors_of(*p, dark), entries(r)),
{
    let mut r = no_members();
    set_all(&mut r, plain(p));
    set_all(&mut r, surfaces(p));
    set_all(&mut r, buttons(p, dark));
    set_all(&mut r, statuses(p, dark));
    set_all(&mut r, lists(p));
    set_all(&mut r, bars(p));
    set_all(&mut r, controls(p));
    set_all(&mut r, charts(p));
    r
}

/// The editor's own colours.
pub open spec fn editor_of(p: Palette) -> Seq<(Seq<char>, Seq<char>)> {
    seq![
        ("editor.background"@, hex_text(p.well)),
        ("editor.foreground"@, hex_text(p.text)),
        ("editor.active_line.background"@, hex_text(p.recessed)),
        ("editor.line_number"@, hex_text(p.text_tertiary)),
        ("editor.active_line_number"@, hex_text(p.text)),
    ]
}

/// Puts the editor in the well, keeping the rest of its syntax colours.
pub fn highlight(p: &Palette, style: &mut serde_json::Map<String, Value>)
    ensures
        text_entries(*final(style)) == with_set(text_entries(*old(style)), editor_of(*p)),
        others_kept(entries(*old(style)), entries(*final(style)), editor_of(*p)),
{
    let more: Vec<(&'static str, String)> = vec![
        ("editor.background", hex(p.well)),
        ("editor.foreground", hex(p.text)),
        ("editor.active_line.background", hex(p.recessed)),
        ("editor.line_number", hex(p.text_tertiary)),
        ("editor.active_line_number", hex(p.text)),
    ];
    proof {
        assert(paints(more@) =~= editor_of(*p));
    }
    set_all(style, more);
}

// ---------------------------------------------------------------------------
// What holds of colours as text
// ---------------------------------------------------------------------------

/// What the digit of a colour stands for.
pub open spec fn hex_value(c: char) -> nat {
    if '0' <= c <= '9' {
        (c as int - '0' as int) as nat
    } else {
        (c as int - 'a' as int + 10) as nat
    }
}

/// What digits in base sixteen stand for.
pub open spec fn hex_number(digits: Seq<char>) -> nat
    decreases digits.len(),
{
    if digits.len() == 0 {
        0
    } else {
        hex_number(digits.drop_last()) * 16 + hex_value(digits.last())
    }
}

/// The least number that takes more than `width` digits.
pub open spec fn beyond(width: nat) -> nat
    decreases width,
{
    if width == 0 {
        1
    } else {
        16 * beyond((width - 1) as nat)
    }
}

proof fn lemma_hex_digits(n: nat, width: nat)
    requires
        width > 0,
        n < beyond(width),
    ensures
        hex_digits(n, width).len() == width,
        hex_number(hex_digits(n, width)) == n,
    decreases width,
{
    reveal_with_fuel(hex_number, 2);
    let all = hex_digits(n, width);
    if width == 1 {
        reveal_with_fuel(beyond, 2);
        assert(all =~= seq![hex_digit(n)]);
        assert(all.drop_last() =~= seq![]);
    } else {
        let rest = (width - 1) as nat;
        assert(n / 16 < beyond(rest));
        lemma_hex_digits(n / 16, rest);
        assert(all.drop_last() =~= hex_digits(n / 16, rest));
        assert(n == (n / 16) * 16 + n % 16);
    }
}

/// A colour is written as `#` and six digits, and read back it is the colour.
pub proof fn a_colour_reads_back(color: u32)
    requires
        color <= 0xffffff,
    ensures
        hex_text(color).len() == 7,
        hex_number(hex_text(color).skip(1)) == color,
{
    reveal_with_fuel(beyond, 7);
    lemma_hex_digits(color as nat, 6);
    assert(hex_text(color).skip(1) =~= hex_digits(color as nat, 6));
}

/// One that lets what is beneath through is written with two digits more, which
/// say by how much.
pub proof fn an_alpha_reads_back(color: u32, alpha: u8)
    requires
        color <= 0xffffff,
    ensures
        hex_alpha_text(color, alpha).len() == 9,
        hex_alpha_text(color, alpha).take(7) == hex_text(color),
        hex_number(hex_alpha_text(color, alpha).skip(7)) == alpha,
{
    reveal_with_fuel(beyond, 3);
    a_colour_reads_back(color);
    lemma_hex_digits(alpha as nat, 2);
    assert(hex_alpha_text(color, alpha).take(7) =~= hex_text(color));
    assert(hex_alpha_text(color, alpha).skip(7) =~= hex_digits(alpha as nat, 2));
}

// ---------------------------------------------------------------------------
// Icons
// ---------------------------------------------------------------------------

/// An icon.
#[derive(Clone, Copy, Debug, PartialEq, Eq, Structural)]
pub enum Icon {
    BookOpen,
    Bot,
    Cube,
    FilePenLine,
    FileText,
    FolderOpen,
    FolderPlus,
    GitCompareArrows,
    Globe,
    Hammer,
    Lightbulb,
    MessageSquare,
    Moon,
    ScrollText,
    Settings,
    Shapes,
    Sparkles,
    SquareTerminal,
    TriangleAlert,
    Wrench,
}

} // verus!
