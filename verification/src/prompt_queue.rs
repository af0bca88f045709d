//! The prompt queue on disk. Prompts sent while the harness is working wait in
//! the project's `.suspense/queue`, each saved as its hidden anchor's source,
//! and named so they list in the order they were queued. A queued prompt's file
//! goes when it is sent or cancelled.
use vstd::multiset::Multiset;
use vstd::prelude::*;
use crate::hidden_anchor::{HiddenAnchor, HiddenAnchorView};
use crate::paths::{extension, extension_of, join_path, joined_path};
use crate::system_prompts::APP_DIR;
use crate::text::{chars_of, comes_before, decimal, decimal_of, digit, group_runs, is_before,
    lemma_before_total, lemma_before_transitive, push_all, push_str, repeat, repeated, run_start,
    same, string_of, views, Class};

verus! {

pub const QUEUE_DIR: &'static str = "queue";

/// How many digits the time a prompt was queued is written with, at least.
pub const TIME_DIGITS: usize = 20;

/// A prompt waiting in the queue, and the file it is saved in.
pub struct QueuedPrompt {
    pub file: String,
    pub anchor: HiddenAnchor,
    pub text: String,
}

#[verifier::ext_equal]
pub struct QueuedPromptView {
    pub file: Seq<char>,
    pub anchor: HiddenAnchorView,
    pub text: Seq<char>,
}

impl View for QueuedPrompt {
    type V = QueuedPromptView;

    open spec fn view(&self) -> QueuedPromptView {
        QueuedPromptView { file: self.file@, anchor: self.anchor@, text: self.text@ }
    }
}

impl QueuedPrompt {
    pub fn copy(&self) -> (r: QueuedPrompt)
        ensures
            r@ == self@,
    {
        QueuedPrompt {
            file: self.file.clone(),
            anchor: self.anchor.copy(),
            text: self.text.clone(),
        }
    }
}

pub open spec fn dir_in(project_dir: Seq<char>) -> Seq<char> {
    join_path(join_path(project_dir, APP_DIR@), QUEUE_DIR@)
}

/// Where a project's queue is saved.
pub fn queue_dir(project_dir: &str) -> (r: String)
    ensures
        r@ == dir_in(project_dir@),
{
    joined_path(&joined_path(project_dir, APP_DIR), QUEUE_DIR)
}

// ---------------------------------------------------------------------------
// Names
// ---------------------------------------------------------------------------

/// A number in decimal, with zeros before it up to `width` digits.
pub open spec fn padded(n: nat, width: nat) -> Seq<char> {
    let digits = decimal(n);
    if digits.len() < width {
        repeat('0', (width - digits.len()) as nat) + digits
    } else {
        digits
    }
}

/// The name of the file a prompt queued at a time is saved in.
pub open spec fn name_at(queued_at: nat, anchor: Seq<char>) -> Seq<char> {
    padded(queued_at, TIME_DIGITS as nat).push('-') + anchor + ".pi"@
}

/// The name of the file a prompt is saved in, `queued_at` being the time in
/// nanoseconds. Zero-padded, so names sort in the order they were queued.
pub fn file_name(queued_at: u128, anchor: &str) -> (r: String)
    ensures
        r@ == name_at(queued_at as nat, anchor@),
{
    let digits = decimal_of(queued_at);
    let mut name: Vec<char> = if digits.len() < TIME_DIGITS {
        repeated('0', TIME_DIGITS - digits.len())
    } else {
        Vec::new()
    };
    push_all(&mut name, &digits);
    proof {
        assert(name@ =~= padded(queued_at as nat, TIME_DIGITS as nat));
    }
    name.push('-');
    push_str(&mut name, anchor);
    push_str(&mut name, ".pi");
    string_of(&name)
}

/// A prompt queued at a time, in the file it is saved in.
pub open spec fn queued_prompt(
    project_dir: Seq<char>,
    queued_at: nat,
    anchor: HiddenAnchorView,
    text: Seq<char>,
) -> QueuedPromptView {
    QueuedPromptView {
        file: join_path(dir_in(project_dir), name_at(queued_at, anchor.name)),
        anchor,
        text,
    }
}

/// `text` at the end of the project's queue, as `anchor`'s source, in the file
/// it is to be saved in.
pub fn add(anchor: HiddenAnchor, text: String, project_dir: &str, queued_at: u128) -> (r:
    QueuedPrompt)
    ensures
        r@ == queued_prompt(project_dir@, queued_at as nat, anchor@, text@),
{
    let file = joined_path(&queue_dir(project_dir), &file_name(queued_at, &anchor.name));
    QueuedPrompt { file, anchor, text }
}

// ---------------------------------------------------------------------------
// Order
// ---------------------------------------------------------------------------

/// Whether a file in the queue's folder is a queued prompt's.
pub open spec fn is_prompt(name: Seq<char>) -> bool {
    extension(name) == Some("pi"@)
}

/// `name` put among sorted names, after those that don't come after it.
pub open spec fn insert_sorted(names: Seq<Seq<char>>, name: Seq<char>) -> Seq<Seq<char>>
    decreases names.len(),
{
    if names.len() > 0 && comes_before(name, names.last()) {
        insert_sorted(names.drop_last(), name).push(names.last())
    } else {
        names.push(name)
    }
}

/// The queued prompts' files among some, in the order they were queued.
pub open spec fn in_order(names: Seq<Seq<char>>) -> Seq<Seq<char>>
    decreases names.len(),
{
    if names.len() == 0 {
        seq![]
    } else if is_prompt(names.last()) {
        insert_sorted(in_order(names.drop_last()), names.last())
    } else {
        in_order(names.drop_last())
    }
}

/// Puts `name` among sorted names.
pub fn insert(names: &mut Vec<Vec<char>>, name: Vec<char>)
    ensures
        views(final(names)@) == insert_sorted(views(old(names)@), name@),
{
    let ghost all = views(names@);
    let mut at: usize = names.len();
    proof {
        assert(all.take(at as int) =~= all);
        assert(insert_sorted(all.take(at as int), name@) + all.skip(at as int) =~= insert_sorted(
            all,
            name@,
        ));
    }
    while at > 0 && is_before(&name, &names[at - 1])
        invariant
            at <= names@.len(),
            names@ == old(names)@,
            all == views(names@),
            insert_sorted(all.take(at as int), name@) + all.skip(at as int) == insert_sorted(
                all,
                name@,
            ),
        decreases at,
    {
        proof {
            let part = all.take(at as int);
            assert(part.last() == names@[at - 1]@);
            assert(part.drop_last() =~= all.take(at - 1));
            assert(insert_sorted(part.drop_last(), name@).push(part.last()) + all.skip(at as int)
                =~= insert_sorted(part.drop_last(), name@) + all.skip(at - 1));
        }
        at -= 1;
    }
    proof {
        let part = all.take(at as int);
        if at > 0 {
            assert(part.last() == names@[at - 1]@);
        }
    }
    names.insert(at, name);
    proof {
        assert(views(names@) =~= all.take(at as int).push(name@) + all.skip(at as int));
    }
}

/// The queued prompts' files among `names`, what is in the queue's folder, in
/// the order they were queued.
pub fn load_order(names: &Vec<String>) -> (r: Vec<String>)
    ensures
        views(r@) == in_order(views(names@)),
{
    let ghost all = views(names@);
    let mut sorted: Vec<Vec<char>> = Vec::new();
    let mut i: usize = 0;
    proof {
        assert(views(sorted@) =~= in_order(all.take(0)));
    }
    while i < names.len()
        invariant
            i <= names@.len(),
            all == views(names@),
            views(sorted@) == in_order(all.take(i as int)),
        decreases names@.len() - i,
    {
        proof {
            assert(all.take(i + 1).drop_last() =~= all.take(i as int));
            assert(all.take(i + 1).last() == names@[i as int]@);
        }
        if let Some(kind) = extension_of(&names[i]) {
            if same(&kind, "pi") {
                insert(&mut sorted, chars_of(&names[i]));
            }
        }
        i += 1;
    }
    proof {
        assert(all.take(all.len() as int) =~= all);
    }
    let mut r: Vec<String> = Vec::new();
    let mut k: usize = 0;
    while k < sorted.len()
        invariant
            k <= sorted@.len(),
            views(r@) == views(sorted@).take(k as int),
        decreases sorted@.len() - k,
    {
        let ghost before = views(r@);
        r.push(string_of(&sorted[k]));
        proof {
            assert(views(r@) =~= before.push(sorted@[k as int]@));
            assert(views(sorted@).take(k + 1) =~= views(sorted@).take(k as int).push(
                sorted@[k as int]@,
            ));
        }
        k += 1;
    }
    proof {
        assert(views(sorted@).take(sorted@.len() as int) =~= views(sorted@));
    }
    r
}

// ---------------------------------------------------------------------------
// What holds of the order
// ---------------------------------------------------------------------------

/// Whether names are in order, none before one that comes before it.
pub open spec fn sorted(names: Seq<Seq<char>>) -> bool {
    forall|i: int, j: int|
        0 <= i < j < names.len() ==> !comes_before(#[trigger] names[j], #[trigger] names[i])
}

pub proof fn lemma_insert_sorted(names: Seq<Seq<char>>, name: Seq<char>)
    requires
        sorted(names),
    ensures
        sorted(insert_sorted(names, name)),
        insert_sorted(names, name).to_multiset() == names.to_multiset().insert(name),
        insert_sorted(names, name).len() == names.len() + 1,
    decreases names.len(),
{
    broadcast use vstd::seq_lib::group_to_multiset_ensures;

    let now = insert_sorted(names, name);
    if names.len() > 0 && comes_before(name, names.last()) {
        let rest = names.drop_last();
        let last = names.last();
        assert forall|i: int, j: int| 0 <= i < j < rest.len() implies !comes_before(
            #[trigger] rest[j],
            #[trigger] rest[i],
        ) by {
            assert(rest[i] == names[i] && rest[j] == names[j]);
        }
        lemma_insert_sorted(rest, name);
        let before = insert_sorted(rest, name);
        assert(rest.push(last) =~= names);
        assert(names.to_multiset() =~= rest.to_multiset().insert(last));
        assert(now.to_multiset() =~= before.to_multiset().insert(last));
        assert(now.to_multiset() =~= names.to_multiset().insert(name));
        assert forall|i: int, j: int| 0 <= i < j < now.len() implies !comes_before(
            #[trigger] now[j],
            #[trigger] now[i],
        ) by {
            if j < before.len() {
                assert(now[i] == before[i] && now[j] == before[j]);
            } else {
                assert(now[i] == before[i]);
                assert(before.to_multiset().count(before[i]) > 0) by {
                    assert(before.contains(before[i]));
                }
                if before[i] == name {
                    lemma_before_total(name, last);
                } else {
                    assert(rest.to_multiset().count(before[i]) > 0);
                    assert(rest.contains(before[i]));
                    let k = choose|k: int| 0 <= k < rest.len() && rest[k] == before[i];
                    assert(names[k] == before[i]);
                    assert(names[names.len() - 1] == last);
                }
            }
        }
    } else {
        assert forall|i: int, j: int| 0 <= i < j < now.len() implies !comes_before(
            #[trigger] now[j],
            #[trigger] now[i],
        ) by {
            if j < names.len() {
                assert(now[i] == names[i] && now[j] == names[j]);
            } else {
                assert(now[i] == names[i]);
                let last = names[names.len() - 1];
                if comes_before(name, names[i]) {
                    lemma_before_total(last, name);
                    if last == name {
                        if i < names.len() - 1 {
                            assert(!comes_before(names[names.len() - 1], names[i]));
                        } else {
                            lemma_before_total(name, name);
                        }
                    } else {
                        assert(comes_before(last, name));
                        lemma_before_transitive(last, name, names[i]);
                        if i < names.len() - 1 {
                            assert(!comes_before(names[names.len() - 1], names[i]));
                        } else {
                            lemma_before_total(last, last);
                        }
                    }
                }
            }
        }
    }
}

/// How often each name is among some, counting queued prompts' only.
pub open spec fn prompts_among(names: Seq<Seq<char>>) -> Multiset<Seq<char>>
    decreases names.len(),
{
    if names.len() == 0 {
        Multiset::empty()
    } else if is_prompt(names.last()) {
        prompts_among(names.drop_last()).insert(names.last())
    } else {
        prompts_among(names.drop_last())
    }
}

/// The queue loads in the order of its names, with every queued prompt's file
/// in it and nothing else.
pub proof fn the_queue_loads_sorted(names: Seq<Seq<char>>)
    ensures
        sorted(in_order(names)),
        in_order(names).to_multiset() == prompts_among(names),
    decreases names.len(),
{
    broadcast use vstd::seq_lib::group_to_multiset_ensures;

    if names.len() == 0 {
        assert(in_order(names).to_multiset() =~= Multiset::<Seq<char>>::empty());
    } else {
        the_queue_loads_sorted(names.drop_last());
        if is_prompt(names.last()) {
            lemma_insert_sorted(in_order(names.drop_last()), names.last());
        }
    }
}

/// The last digits of a number, so many of them.
spec fn last_digits(n: nat, width: nat) -> Seq<char>
    decreases width,
{
    if width == 0 {
        seq![]
    } else {
        last_digits(n / 10, (width - 1) as nat).push(digit(n % 10))
    }
}

/// Ten so many times over.
pub open spec fn ten_to(width: nat) -> nat
    decreases width,
{
    if width == 0 {
        1
    } else {
        10 * ten_to((width - 1) as nat)
    }
}

proof fn lemma_last_digits_of_zero(width: nat)
    ensures
        last_digits(0, width) == repeat('0', width),
    decreases width,
{
    if width > 0 {
        lemma_last_digits_of_zero((width - 1) as nat);
        assert(last_digits(0, width) =~= repeat('0', width));
    } else {
        assert(last_digits(0, width) =~= repeat('0', width));
    }
}

proof fn lemma_padded(n: nat, width: nat)
    requires
        0 < width,
        n < ten_to(width),
    ensures
        padded(n, width) == last_digits(n, width),
        decimal(n).len() <= width,
        last_digits(n, width).len() == width,
    decreases width,
{
    let less = (width - 1) as nat;
    lemma_last_digits_len(n, width);
    if n < 10 {
        lemma_last_digits_of_zero(less);
        assert(n / 10 == 0 && n % 10 == n);
        assert(padded(n, width) =~= last_digits(n, width));
    } else {
        if less == 0 {
            assert(ten_to(0) == 1);
            assert(ten_to(1) == 10 * ten_to(0));
        }
        assert(n / 10 < ten_to(less)) by (nonlinear_arith)
            requires
                n < 10 * ten_to(less),
        ;
        lemma_padded(n / 10, less);
        assert(padded(n, width) =~= padded(n / 10, less).push(digit(n % 10)));
    }
}

proof fn lemma_last_digits_len(n: nat, width: nat)
    ensures
        last_digits(n, width).len() == width,
    decreases width,
{
    if width > 0 {
        lemma_last_digits_len(n / 10, (width - 1) as nat);
    }
}

/// Texts of one length compare as they do whatever comes after them, as long as
/// they differ.
proof fn lemma_before_with_rest(a: Seq<char>, b: Seq<char>, x: Seq<char>, y: Seq<char>)
    requires
        a.len() == b.len(),
        comes_before(a, b),
    ensures
        comes_before(a + x, b + y),
    decreases a.len(),
{
    if a[0] == b[0] {
        lemma_before_with_rest(a.skip(1), b.skip(1), x, y);
        assert((a + x).skip(1) =~= a.skip(1) + x);
        assert((b + y).skip(1) =~= b.skip(1) + y);
    }
}

/// With the same start, what follows decides.
proof fn lemma_before_same_start(a: Seq<char>, x: Seq<char>, y: Seq<char>)
    requires
        comes_before(x, y),
    ensures
        comes_before(a + x, a + y),
    decreases a.len(),
{
    if a.len() == 0 {
        assert(a + x =~= x);
        assert(a + y =~= y);
    } else {
        lemma_before_same_start(a.skip(1), x, y);
        assert((a + x).skip(1) =~= a.skip(1) + x);
        assert((a + y).skip(1) =~= a.skip(1) + y);
    }
}

proof fn lemma_digits_compare(m: nat, n: nat, width: nat)
    requires
        m < n,
        n < ten_to(width),
    ensures
        comes_before(last_digits(m, width), last_digits(n, width)),
    decreases width,
{
    if width > 0 {
        let less = (width - 1) as nat;
        let a = last_digits(m / 10, less);
        let b = last_digits(n / 10, less);
        let x = seq![digit(m % 10)];
        let y = seq![digit(n % 10)];
        lemma_last_digits_len(m / 10, less);
        lemma_last_digits_len(n / 10, less);
        assert(last_digits(m, width) =~= a + x);
        assert(last_digits(n, width) =~= b + y);
        if m / 10 < n / 10 {
            assert(n / 10 < ten_to(less)) by (nonlinear_arith)
                requires
                    n < 10 * ten_to(less),
            ;
            lemma_digits_compare(m / 10, n / 10, less);
            lemma_before_with_rest(a, b, x, y);
        } else {
            assert(m / 10 == n / 10);
            assert(m % 10 < n % 10);
            assert(x[0] < y[0]);
            lemma_before_same_start(a, x, y);
        }
    }
}

/// How many digits a time is written with in a name.
pub open spec fn time_width(queued_at: nat) -> nat {
    padded(queued_at, TIME_DIGITS as nat).len()
}

/// A number without its last digits, so many of them.
pub open spec fn without_last(n: nat, count: nat) -> nat
    decreases count,
{
    if count == 0 {
        n
    } else {
        without_last(n / 10, (count - 1) as nat)
    }
}

/// Whether the name of a prompt queued at one time comes before that of one
/// queued later. It does, but where the later time is written with more digits
/// than names are padded to and its first ones make a smaller number.
pub open spec fn keeps_order(earlier: nat, later: nat) -> bool {
    earlier < later && (time_width(earlier) >= time_width(later) || earlier <= without_last(
        later,
        (time_width(later) - time_width(earlier)) as nat,
    ))
}

/// A number is written with as many digits as it takes.
proof fn lemma_decimal_len(n: nat)
    ensures
        n < ten_to(decimal(n).len()),
        n > 0 ==> ten_to((decimal(n).len() - 1) as nat) <= n,
        decimal(n).len() > 0,
    decreases n,
{
    let len = decimal(n).len();
    if n < 10 {
        assert(len == 1);
        assert(ten_to(0) == 1);
        assert(ten_to(1) == 10 * ten_to(0));
    } else {
        lemma_decimal_len(n / 10);
        let less = decimal(n / 10).len();
        assert(len == less + 1);
        assert(ten_to(len) == 10 * ten_to(less));
        assert(ten_to(less) == 10 * ten_to((less - 1) as nat));
    }
}

proof fn lemma_ten_to_grows(a: nat, b: nat)
    requires
        a <= b,
    ensures
        ten_to(a) <= ten_to(b),
    decreases b,
{
    if a < b {
        lemma_ten_to_grows(a, (b - 1) as nat);
    }
}

/// A time as a name has it is its digits, as many as it is written with.
proof fn lemma_time_written(n: nat)
    ensures
        TIME_DIGITS <= time_width(n),
        n < ten_to(time_width(n)),
        padded(n, TIME_DIGITS as nat) == last_digits(n, time_width(n)),
        time_width(n) > TIME_DIGITS ==> ten_to((time_width(n) - 1) as nat) <= n,
{
    lemma_decimal_len(n);
    let width = TIME_DIGITS as nat;
    let len = decimal(n).len();
    if len < width {
        lemma_ten_to_grows(len, width);
        lemma_padded(n, width);
    } else {
        lemma_padded(n, len);
        if n == 0 {
            assert(len == 1);
        }
    }
}

proof fn lemma_width_grows(earlier: nat, later: nat)
    requires
        earlier <= later,
    ensures
        time_width(earlier) <= time_width(later),
{
    lemma_time_written(earlier);
    lemma_time_written(later);
    if time_width(later) < time_width(earlier) {
        lemma_ten_to_grows(time_width(later), (time_width(earlier) - 1) as nat);
    }
}

/// The first digits of a number are those of the number without its last ones.
proof fn lemma_first_digits(n: nat, width: nat, count: nat)
    requires
        count <= width,
        n < ten_to(width),
    ensures
        last_digits(n, width).take(width - count) == last_digits(
            without_last(n, count),
            (width - count) as nat,
        ),
        without_last(n, count) < ten_to((width - count) as nat),
    decreases count,
{
    lemma_last_digits_len(n, width);
    if count == 0 {
        assert(last_digits(n, width).take(width as int) =~= last_digits(n, width));
    } else {
        let less = (width - 1) as nat;
        assert(n / 10 < ten_to(less)) by (nonlinear_arith)
            requires
                n < 10 * ten_to(less),
        ;
        lemma_last_digits_len(n / 10, less);
        lemma_first_digits(n / 10, less, (count - 1) as nat);
        assert(last_digits(n, width).take(width - count) =~= last_digits(n / 10, less).take(
            width - count,
        ));
    }
}

proof fn lemma_digit_at(n: nat, width: nat, k: int)
    requires
        0 <= k < width,
    ensures
        last_digits(n, width).len() == width,
        '-' < last_digits(n, width)[k],
    decreases width,
{
    lemma_last_digits_len(n, width);
    let less = (width - 1) as nat;
    lemma_last_digits_len(n / 10, less);
    if k < less {
        lemma_digit_at(n / 10, less, k);
    }
}

/// Files are named so that they list in the order they were queued, exactly as
/// far as the digits of their times compare so.
pub proof fn names_list_in_the_order_queued(
    earlier: nat,
    later: nat,
    first: Seq<char>,
    second: Seq<char>,
)
    requires
        earlier < later,
    ensures
        comes_before(name_at(earlier, first), name_at(later, second)) == keeps_order(
            earlier,
            later,
        ),
        later < ten_to(TIME_DIGITS as nat) ==> keeps_order(earlier, later),
{
    let width = TIME_DIGITS as nat;
    let a = time_width(earlier);
    let b = time_width(later);
    lemma_time_written(earlier);
    lemma_time_written(later);
    lemma_width_grows(earlier, later);
    if later < ten_to(width) {
        lemma_padded(later, width);
    }
    let x = seq!['-'] + first + ".pi"@;
    let y = seq!['-'] + second + ".pi"@;
    let p = last_digits(earlier, a);
    let name = name_at(earlier, first);
    let other = name_at(later, second);
    lemma_last_digits_len(earlier, a);
    lemma_last_digits_len(later, b);
    assert(name =~= p + x);
    assert(other =~= last_digits(later, b) + y);
    lemma_before_total(name, other);
    if a == b {
        lemma_digits_compare(earlier, later, a);
        lemma_before_with_rest(p, last_digits(later, b), x, y);
    } else {
        let count = (b - a) as nat;
        let lead = without_last(later, count);
        lemma_first_digits(later, b, count);
        let q = last_digits(lead, a);
        let z = last_digits(later, b).skip(a as int) + y;
        lemma_last_digits_len(lead, a);
        assert(last_digits(later, b).take(a as int) == q);
        assert(other =~= q + z);
        if earlier < lead {
            lemma_digits_compare(earlier, lead, a);
            lemma_before_with_rest(p, q, x, z);
        } else if earlier == lead {
            lemma_digit_at(later, b, a as int);
            assert(x[0] == '-' && z[0] == last_digits(later, b)[a as int]);
            assert(comes_before(x, z));
            lemma_before_same_start(p, x, z);
        } else {
            lemma_digits_compare(lead, earlier, a);
            lemma_before_with_rest(q, p, z, x);
        }
    }
}

// ---------------------------------------------------------------------------
// Loading
// ---------------------------------------------------------------------------

/// A file of the queue, by its name, and the hidden anchor and text it reads back
/// as, if it does.
pub struct QueueFile {
    pub name: String,
    pub prompt: Option<(HiddenAnchor, String)>,
}

#[verifier::ext_equal]
pub struct QueueFileView {
    pub name: Seq<char>,
    pub prompt: Option<(HiddenAnchorView, Seq<char>)>,
}

impl View for QueueFile {
    type V = QueueFileView;

    open spec fn view(&self) -> QueueFileView {
        QueueFileView {
            name: self.name@,
            prompt: match self.prompt {
                Some(prompt) => Some((prompt.0@, prompt.1@)),
                None => None,
            },
        }
    }
}

pub open spec fn file_views(v: Seq<QueueFile>) -> Seq<QueueFileView> {
    v.map_values(|f: QueueFile| f@)
}

pub open spec fn queued_views(v: Seq<QueuedPrompt>) -> Seq<QueuedPromptView> {
    v.map_values(|q: QueuedPrompt| q@)
}

/// The prompt a file of the queue holds, if it holds one.
pub open spec fn prompt_in(project_dir: Seq<char>, file: QueueFileView) -> Seq<QueuedPromptView> {
    match file.prompt {
        Some((anchor, text)) => seq![
            QueuedPromptView { file: join_path(dir_in(project_dir), file.name), anchor, text },
        ],
        None => seq![],
    }
}

/// The prompts that files of the queue hold, one after the other.
pub open spec fn prompts_in(project_dir: Seq<char>, files: Seq<QueueFileView>) -> Seq<
    QueuedPromptView,
>
    decreases files.len(),
{
    if files.len() == 0 {
        seq![]
    } else {
        prompts_in(project_dir, files.drop_last()) + prompt_in(project_dir, files.last())
    }
}

/// The project's queued prompts, in the order they were queued: what the files of
/// its queue, in the order of `load_order`, hold. Files that do not read back as
/// a hidden anchor are left out.
pub fn load(project_dir: &str, files: Vec<QueueFile>) -> (r: Vec<QueuedPrompt>)
    ensures
        queued_views(r@) == prompts_in(project_dir@, file_views(files@)),
{
    let ghost all = file_views(files@);
    let dir = queue_dir(project_dir);
    let mut files = files;
    let mut r: Vec<QueuedPrompt> = Vec::new();
    let ghost mut n: int = 0;
    proof {
        assert(queued_views(r@) =~= prompts_in(project_dir@, all.take(0)));
        assert(file_views(files@) =~= all.skip(0));
    }
    while files.len() > 0
        invariant
            0 <= n <= all.len(),
            dir@ == dir_in(project_dir@),
            file_views(files@) == all.skip(n),
            queued_views(r@) == prompts_in(project_dir@, all.take(n)),
        decreases files@.len(),
    {
        let ghost before = files@;
        let ghost had = queued_views(r@);
        let file = files.remove(0);
        proof {
            assert(file_views(before).len() == before.len());
            assert(all.skip(n)[0] == before[0]@);
            assert(all.take(n + 1).drop_last() =~= all.take(n));
            assert(all.take(n + 1).last() == file@);
            assert(file_views(files@) =~= file_views(before).skip(1));
            assert(all.skip(n).skip(1) =~= all.skip(n + 1));
        }
        let ghost given = file@;
        match file.prompt {
            Some((anchor, text)) => {
                let queued = QueuedPrompt { file: joined_path(&dir, &file.name), anchor, text };
                r.push(queued);
                proof {
                    assert(queued_views(r@) =~= had + prompt_in(project_dir@, given));
                }
            },
            None => {
                proof {
                    assert(queued_views(r@) =~= had + prompt_in(project_dir@, given));
                }
            },
        }
        proof {
            n = n + 1;
        }
    }
    proof {
        assert(file_views(files@).len() == 0);
        assert(all.take(n) =~= all);
    }
    r
}

/// What a queue's folder holds: its files, by their names, each with the hidden
/// anchor and text it reads back as, if it does.
pub type Folder = Map<Seq<char>, Option<(HiddenAnchorView, Seq<char>)>>;

/// Whether a folder, read, gives these names: those of its files, in any order.
pub open spec fn lists(names: Seq<Seq<char>>, folder: Folder) -> bool {
    names.no_duplicates() && forall|name: Seq<char>| #[trigger]
        names.contains(name) == folder.contains_key(name)
}

/// Files, in order, with what they read back as.
pub open spec fn read_each(names: Seq<Seq<char>>, folder: Folder) -> Seq<QueueFileView> {
    names.map_values(|name: Seq<char>| QueueFileView { name, prompt: folder[name] })
}

/// The prompts loaded of a queue whose folder gives some names.
pub open spec fn loaded(project_dir: Seq<char>, names: Seq<Seq<char>>, folder: Folder) -> Seq<
    QueuedPromptView,
> {
    prompts_in(project_dir, read_each(in_order(names), folder))
}

/// A prompt to queue: when it is queued, its hidden anchor and its text.
#[verifier::ext_equal]
pub struct Queuing {
    pub queued_at: nat,
    pub anchor: HiddenAnchorView,
    pub text: Seq<char>,
}

impl Queuing {
    pub open spec fn name(self) -> Seq<char> {
        name_at(self.queued_at, self.anchor.name)
    }

    /// The prompt as it is queued.
    pub open spec fn queued(self, project_dir: Seq<char>) -> QueuedPromptView {
        queued_prompt(project_dir, self.queued_at, self.anchor, self.text)
    }

    /// A folder once the prompt's file is saved in it.
    pub open spec fn saved(self, folder: Folder) -> Folder {
        folder.insert(self.name(), Some((self.anchor, self.text)))
    }
}

/// A folder once some prompts were queued in turn.
pub open spec fn saved_all(beside: Folder, queue: Seq<Queuing>) -> Folder
    decreases queue.len(),
{
    if queue.len() == 0 {
        beside
    } else {
        queue.last().saved(saved_all(beside, queue.drop_last()))
    }
}

/// A folder once a file is removed, if it was there.
pub open spec fn removed(folder: Folder, name: Seq<char>) -> Folder {
    folder.remove(name)
}

/// Whether no file reads back as a prompt.
pub open spec fn holds_none(folder: Folder) -> bool {
    forall|name: Seq<char>| #[trigger] folder.contains_key(name) ==> folder[name] is None
}

/// Whether prompts were queued one after the other, at times whose names keep
/// that order.
pub open spec fn queued_in_turn(queue: Seq<Queuing>) -> bool {
    forall|i: int, j: int|
        0 <= i < j < queue.len() ==> keeps_order(
            (#[trigger] queue[i]).queued_at,
            (#[trigger] queue[j]).queued_at,
        )
}

pub open spec fn queued_each(project_dir: Seq<char>, queue: Seq<Queuing>) -> Seq<
    QueuedPromptView,
> {
    queue.map_values(|q: Queuing| q.queued(project_dir))
}

// ---------------------------------------------------------------------------
// What holds of the queue
// ---------------------------------------------------------------------------

/// The names of prompts in order don't depend on the order they are listed in.
proof fn lemma_listed_last(names: Seq<Seq<char>>, at: int)
    requires
        0 <= at < names.len(),
    ensures
        prompts_among(names) == prompts_among(names.remove(at).push(names[at])),
    decreases names.len(),
{
    let rest = names.drop_last();
    let last = names.last();
    let moved = names.remove(at).push(names[at]);
    assert(moved.drop_last() =~= names.remove(at));
    if at == names.len() - 1 {
        assert(names.remove(at) =~= rest);
        assert(moved =~= names);
    } else {
        lemma_listed_last(rest, at);
        let less = rest.remove(at);
        assert(rest.remove(at).push(rest[at]).drop_last() =~= less);
        assert(names.remove(at).drop_last() =~= less);
        assert(names.remove(at).last() == last);
        let base = prompts_among(less);
        reveal_with_fuel(prompts_among, 3);
        assert(rest.remove(at).push(rest[at]).last() == names[at]);
        assert(moved.last() == names[at]);
        assert(base.insert(names[at]).insert(last) =~= base.insert(last).insert(names[at]));
    }
}

proof fn lemma_in_order_is(names: Seq<Seq<char>>, other: Seq<Seq<char>>)
    requires
        prompts_among(names) == prompts_among(other),
    ensures
        in_order(names) == in_order(other),
{
    the_queue_loads_sorted(names);
    the_queue_loads_sorted(other);
    let leq = |a: Seq<char>, b: Seq<char>| !comes_before(b, a);
    assert forall|a: Seq<char>, b: Seq<char>| #[trigger] leq(a, b) || leq(b, a) by {
        lemma_before_total(a, b);
    }
    assert forall|a: Seq<char>| #[trigger] leq(a, a) by {
        lemma_before_total(a, a);
    }
    assert forall|a: Seq<char>, b: Seq<char>| #[trigger] leq(a, b) && #[trigger] leq(b, a) implies a
        == b by {
        lemma_before_total(a, b);
    }
    assert forall|a: Seq<char>, b: Seq<char>, c: Seq<char>| #[trigger]
        leq(a, b) && #[trigger] leq(b, c) implies leq(a, c) by {
        if comes_before(c, a) {
            lemma_before_total(a, b);
            lemma_before_total(b, c);
            if a != b && b != c {
                lemma_before_transitive(a, b, c);
                lemma_before_total(a, c);
            }
        }
    }
    vstd::seq_lib::lemma_sorted_unique(in_order(names), in_order(other), leq);
}

/// What is in order is listed.
proof fn lemma_in_order_listed(names: Seq<Seq<char>>)
    ensures
        forall|k: int|
            0 <= k < in_order(names).len() ==> names.contains(#[trigger] in_order(names)[k]),
    decreases names.len(),
{
    if names.len() > 0 {
        let rest = names.drop_last();
        lemma_in_order_listed(rest);
        let before = in_order(rest);
        if is_prompt(names.last()) {
            lemma_inserted(before, names.last());
        }
        let now = in_order(names);
        assert forall|k: int| 0 <= k < now.len() implies names.contains(#[trigger] now[k]) by {
            if now[k] == names.last() {
                assert(names[names.len() - 1] == now[k]);
            } else {
                assert(before.contains(now[k]));
                let j = choose|j: int| 0 <= j < before.len() && before[j] == now[k];
                assert(rest.contains(before[j]));
                let i = choose|i: int| 0 <= i < rest.len() && rest[i] == before[j];
                assert(names[i] == now[k]);
            }
        }
    }
}

proof fn lemma_inserted(names: Seq<Seq<char>>, name: Seq<char>)
    ensures
        forall|k: int|
            0 <= k < insert_sorted(names, name).len() ==> (#[trigger] insert_sorted(names, name)[k]
                == name || names.contains(insert_sorted(names, name)[k])),
    decreases names.len(),
{
    let now = insert_sorted(names, name);
    if names.len() > 0 && comes_before(name, names.last()) {
        let rest = names.drop_last();
        lemma_inserted(rest, name);
        let less = insert_sorted(rest, name);
        assert forall|k: int| 0 <= k < now.len() implies (#[trigger] now[k] == name
            || names.contains(now[k])) by {
            if k < less.len() {
                assert(now[k] == less[k]);
                if less[k] != name {
                    let i = choose|i: int| 0 <= i < rest.len() && rest[i] == less[k];
                    assert(names[i] == now[k]);
                }
            } else {
                assert(names[names.len() - 1] == now[k]);
            }
        }
    } else {
        assert forall|k: int| 0 <= k < now.len() implies (#[trigger] now[k] == name
            || names.contains(now[k])) by {
            if k < names.len() {
                assert(names[k] == now[k]);
            }
        }
    }
}

/// The prompts of files in order.
spec fn held(project_dir: Seq<char>, names: Seq<Seq<char>>, folder: Folder) -> Seq<
    QueuedPromptView,
> {
    prompts_in(project_dir, read_each(names, folder))
}

proof fn lemma_held_push(
    project_dir: Seq<char>,
    names: Seq<Seq<char>>,
    name: Seq<char>,
    folder: Folder,
)
    ensures
        held(project_dir, names.push(name), folder) == held(project_dir, names, folder) + prompt_in(
            project_dir,
            QueueFileView { name, prompt: folder[name] },
        ),
{
    let all = read_each(names.push(name), folder);
    assert(all.drop_last() =~= read_each(names, folder));
    assert(all.last() == (QueueFileView { name, prompt: folder[name] }));
}

/// Files that read back as the same hold the same prompts.
proof fn lemma_held_same(
    project_dir: Seq<char>,
    names: Seq<Seq<char>>,
    folder: Folder,
    other: Folder,
)
    requires
        forall|k: int| 0 <= k < names.len() ==> folder[#[trigger] names[k]] == other[names[k]],
    ensures
        held(project_dir, names, folder) == held(project_dir, names, other),
{
    assert(read_each(names, folder) =~= read_each(names, other));
}

proof fn lemma_none_held(project_dir: Seq<char>, names: Seq<Seq<char>>, folder: Folder)
    requires
        forall|k: int| 0 <= k < names.len() ==> folder[#[trigger] names[k]] is None,
    ensures
        held(project_dir, names, folder) == Seq::<QueuedPromptView>::empty(),
    decreases names.len(),
{
    if names.len() > 0 {
        let rest = names.drop_last();
        assert forall|k: int| 0 <= k < rest.len() implies folder[#[trigger] rest[k]] is None by {
            assert(rest[k] == names[k]);
        }
        lemma_none_held(project_dir, rest, folder);
        lemma_held_push(project_dir, rest, names.last(), folder);
        assert(rest.push(names.last()) =~= names);
        assert(names.last() == names[names.len() - 1]);
    } else {
        assert(held(project_dir, names, folder) =~= Seq::<QueuedPromptView>::empty());
    }
}

/// A prompt whose name comes after those of the others is held after them.
proof fn lemma_held_last(
    project_dir: Seq<char>,
    names: Seq<Seq<char>>,
    name: Seq<char>,
    folder: Folder,
)
    requires
        forall|k: int|
            0 <= k < names.len() ==> folder[#[trigger] names[k]] is None || comes_before(
                names[k],
                name,
            ),
    ensures
        held(project_dir, insert_sorted(names, name), folder) == held(project_dir, names, folder)
            + prompt_in(project_dir, QueueFileView { name, prompt: folder[name] }),
    decreases names.len(),
{
    lemma_held_push(project_dir, names, name, folder);
    if names.len() > 0 && comes_before(name, names.last()) {
        let rest = names.drop_last();
        let last = names[names.len() - 1];
        lemma_before_total(name, last);
        assert(folder[last] is None);
        assert forall|k: int| 0 <= k < rest.len() implies folder[#[trigger] rest[k]] is None
            || comes_before(rest[k], name) by {
            assert(rest[k] == names[k]);
        }
        lemma_held_last(project_dir, rest, name, folder);
        lemma_held_push(project_dir, rest, last, folder);
        lemma_held_push(project_dir, insert_sorted(rest, name), last, folder);
        assert(rest.push(last) =~= names);
        let none = prompt_in(project_dir, QueueFileView { name: last, prompt: folder[last] });
        assert(none =~= Seq::<QueuedPromptView>::empty());
        assert(held(project_dir, names, folder) =~= held(project_dir, rest, folder));
        assert(held(project_dir, insert_sorted(names, name), folder) =~= held(
            project_dir,
            insert_sorted(rest, name),
            folder,
        ));
    }
}

proof fn lemma_queued_names_load(queued_at: nat, anchor: Seq<char>)
    ensures
        is_prompt(name_at(queued_at, anchor)),
{
    broadcast use group_runs;

    reveal_strlit(".pi");
    reveal_strlit("pi");
    let name = name_at(queued_at, anchor);
    let n = name.len() as int;
    let dot = n - 3;
    assert(name[dot] == '.' && name[dot + 1] == 'p' && name[dot + 2] == 'i');
    let after = run_start(name, Class::Not('.'), n);
    if after <= dot {
        assert(Class::Not('.').has(name[dot]));
    }
    if after > dot + 1 {
        assert(!Class::Not('.').has(name[after - 1]));
    }
    assert(name.skip(dot + 1) =~= "pi"@);
}

/// A folder's listing without one of its files lists what is left.
proof fn lemma_listed_without(names: Seq<Seq<char>>, at: int, folder: Folder)
    requires
        lists(names, folder),
        0 <= at < names.len(),
    ensures
        lists(names.remove(at), removed(folder, names[at])),
{
    let rest = names.remove(at);
    let less = removed(folder, names[at]);
    assert forall|i: int, j: int| 0 <= i < rest.len() && 0 <= j < rest.len() && i != j implies rest[i]
        != rest[j] by {
        let a = if i < at {
            i
        } else {
            i + 1
        };
        let b = if j < at {
            j
        } else {
            j + 1
        };
        assert(rest[i] == names[a] && rest[j] == names[b]);
        assert(a != b);
    }
    assert forall|name: Seq<char>| #[trigger] rest.contains(name) == less.contains_key(name) by {
        if rest.contains(name) {
            let i = choose|i: int| 0 <= i < rest.len() && rest[i] == name;
            let a = if i < at {
                i
            } else {
                i + 1
            };
            assert(names[a] == name);
            assert(names.contains(name));
            assert(a != at);
            assert(names[a] != names[at]);
        }
        if less.contains_key(name) {
            assert(names.contains(name));
            let a = choose|a: int| 0 <= a < names.len() && names[a] == name;
            assert(a != at);
            let i = if a < at {
                a
            } else {
                a - 1
            };
            assert(rest[i] == name);
        }
    }
}

/// Queuing a prompt whose name comes after those of the prompts there puts it at
/// the end of the queue, and changes nothing else of it.
pub proof fn a_prompt_queued_comes_last(
    project_dir: Seq<char>,
    folder: Folder,
    more: Queuing,
    names: Seq<Seq<char>>,
    now: Seq<Seq<char>>,
)
    requires
        !folder.contains_key(more.name()),
        forall|name: Seq<char>| #[trigger]
            folder.contains_key(name) && folder[name] is Some ==> comes_before(name, more.name()),
        lists(names, folder),
        lists(now, more.saved(folder)),
    ensures
        loaded(project_dir, now, more.saved(folder)) == loaded(project_dir, names, folder).push(
            more.queued(project_dir),
        ),
{
    let name = more.name();
    let saved = more.saved(folder);
    lemma_queued_names_load(more.queued_at, more.anchor.name);
    assert(saved.contains_key(name));
    assert(now.contains(name));
    let at = choose|at: int| 0 <= at < now.len() && now[at] == name;
    lemma_listed_without(now, at, saved);
    lemma_listed_last(now, at);
    let rest = now.remove(at);
    let moved = rest.push(name);
    lemma_in_order_is(now, moved);
    assert(moved.drop_last() =~= rest);
    assert(in_order(now) == insert_sorted(in_order(rest), name));
    assert(removed(saved, name) =~= folder);
    lemma_any_order(names, rest, folder);
    let ordered = in_order(names);
    lemma_in_order_listed(names);
    assert forall|k: int| 0 <= k < ordered.len() implies saved[#[trigger] ordered[k]]
        == folder[ordered[k]] && (saved[ordered[k]] is None || comes_before(ordered[k], name)) by {
        assert(names.contains(ordered[k]));
        assert(folder.contains_key(ordered[k]));
    }
    lemma_held_last(project_dir, ordered, name, saved);
    lemma_held_same(project_dir, ordered, saved, folder);
    assert(loaded(project_dir, now, saved) =~= loaded(project_dir, names, folder).push(
        more.queued(project_dir),
    ));
}

/// Listings of one folder have the same prompts' names in order.
proof fn lemma_any_order(names: Seq<Seq<char>>, other: Seq<Seq<char>>, folder: Folder)
    requires
        lists(names, folder),
        lists(other, folder),
    ensures
        in_order(names) == in_order(other),
{
    lemma_same_listed(names, other, folder);
    lemma_in_order_is(names, other);
}

proof fn lemma_same_listed(names: Seq<Seq<char>>, other: Seq<Seq<char>>, folder: Folder)
    requires
        lists(names, folder),
        lists(other, folder),
    ensures
        prompts_among(names) == prompts_among(other),
    decreases names.len(),
{
    if names.len() == 0 {
        if other.len() > 0 {
            assert(other.contains(other[0]));
            assert(names.contains(other[0]));
        }
    } else {
        let last = names[names.len() - 1];
        assert(names.contains(last));
        assert(other.contains(last));
        let at = choose|at: int| 0 <= at < other.len() && other[at] == last;
        lemma_listed_last(other, at);
        lemma_listed_without(other, at, folder);
        lemma_listed_without(names, names.len() - 1, folder);
        assert(names.remove(names.len() - 1) =~= names.drop_last());
        lemma_same_listed(names.drop_last(), other.remove(at), removed(folder, last));
        assert(other.remove(at).push(last).drop_last() =~= other.remove(at));
    }
}

/// What a queue's folder loads as doesn't depend on the order it is listed in.
pub proof fn the_listing_order_makes_no_difference(
    project_dir: Seq<char>,
    folder: Folder,
    names: Seq<Seq<char>>,
    other: Seq<Seq<char>>,
)
    requires
        lists(names, folder),
        lists(other, folder),
    ensures
        loaded(project_dir, names, folder) == loaded(project_dir, other, folder),
{
    lemma_any_order(names, other, folder);
}

/// What is in a folder prompts were queued in.
proof fn lemma_saved_all(beside: Folder, queue: Seq<Queuing>, name: Seq<char>)
    requires
        forall|k: int| 0 <= k < queue.len() ==> (#[trigger] queue[k]).name() != name,
    ensures
        saved_all(beside, queue).contains_key(name) == beside.contains_key(name),
        beside.contains_key(name) ==> saved_all(beside, queue)[name] == beside[name],
        saved_all(beside.remove(name), queue) == saved_all(beside, queue).remove(name),
    decreases queue.len(),
{
    if queue.len() > 0 {
        let rest = queue.drop_last();
        assert forall|k: int| 0 <= k < rest.len() implies (#[trigger] rest[k]).name() != name by {
            assert(rest[k] == queue[k]);
        }
        lemma_saved_all(beside, rest, name);
        assert(queue.last() == queue[queue.len() - 1]);
        assert(saved_all(beside.remove(name), queue) =~= saved_all(beside, queue).remove(name));
    }
}

/// What reads back as a prompt is one that was queued.
proof fn lemma_saved_all_holds(beside: Folder, queue: Seq<Queuing>, name: Seq<char>)
    requires
        holds_none(beside),
        saved_all(beside, queue).contains_key(name),
        saved_all(beside, queue)[name] is Some,
    ensures
        exists|k: int| 0 <= k < queue.len() && (#[trigger] queue[k]).name() == name,
    decreases queue.len(),
{
    if queue.len() > 0 {
        let rest = queue.drop_last();
        if queue.last().name() == name {
            assert(queue[queue.len() - 1].name() == name);
        } else {
            lemma_saved_all_holds(beside, rest, name);
            let k = choose|k: int| 0 <= k < rest.len() && (#[trigger] rest[k]).name() == name;
            assert(queue[k].name() == name);
        }
    }
}

/// Prompts queued one after the other load back in that order, whatever else that
/// doesn't read back as a prompt is in the queue's folder and whatever order the
/// folder lists its files in.
pub proof fn prompts_queued_load_back_in_order(
    project_dir: Seq<char>,
    beside: Folder,
    queue: Seq<Queuing>,
    names: Seq<Seq<char>>,
)
    requires
        holds_none(beside),
        queued_in_turn(queue),
        lists(names, saved_all(beside, queue)),
    ensures
        loaded(project_dir, names, saved_all(beside, queue)) == queued_each(project_dir, queue),
    decreases queue.len(),
{
    if queue.len() == 0 {
        lemma_in_order_listed(names);
        let ordered = in_order(names);
        assert forall|k: int| 0 <= k < ordered.len() implies beside[#[trigger] ordered[k]] is None by {
            assert(names.contains(ordered[k]));
            assert(beside.contains_key(ordered[k]));
        }
        lemma_none_held(project_dir, ordered, beside);
        assert(queued_each(project_dir, queue) =~= Seq::<QueuedPromptView>::empty());
    } else {
        let rest = queue.drop_last();
        let more = queue[queue.len() - 1];
        let name = more.name();
        assert forall|k: int| 0 <= k < rest.len() implies comes_before(
            (#[trigger] rest[k]).name(),
            name,
        ) by {
            assert(rest[k] == queue[k]);
            names_list_in_the_order_queued(
                queue[k].queued_at,
                more.queued_at,
                queue[k].anchor.name,
                more.anchor.name,
            );
        }
        assert forall|k: int| 0 <= k < rest.len() implies (#[trigger] rest[k]).name() != name by {
            lemma_before_total(name, name);
        }
        assert(queued_in_turn(rest)) by {
            assert forall|i: int, j: int| 0 <= i < j < rest.len() implies keeps_order(
                (#[trigger] rest[i]).queued_at,
                (#[trigger] rest[j]).queued_at,
            ) by {
                assert(rest[i] == queue[i] && rest[j] == queue[j]);
            }
        }
        let less = beside.remove(name);
        assert(holds_none(less));
        lemma_saved_all(beside, rest, name);
        lemma_saved_all(less, rest, name);
        let folder = saved_all(less, rest);
        assert(more.saved(folder) =~= saved_all(beside, queue));
        assert(names.contains(name));
        let at = choose|at: int| 0 <= at < names.len() && names[at] == name;
        lemma_listed_without(names, at, saved_all(beside, queue));
        assert(removed(more.saved(folder), name) =~= folder);
        prompts_queued_load_back_in_order(project_dir, less, rest, names.remove(at));
        assert forall|other: Seq<char>| #[trigger]
            folder.contains_key(other) && folder[other] is Some implies comes_before(
            other,
            name,
        ) by {
            lemma_saved_all_holds(less, rest, other);
            let k = choose|k: int| 0 <= k < rest.len() && (#[trigger] rest[k]).name() == other;
            assert(comes_before(rest[k].name(), name));
        }
        a_prompt_queued_comes_last(project_dir, folder, more, names.remove(at), names);
        assert(queued_each(project_dir, queue) =~= queued_each(project_dir, rest).push(
            more.queued(project_dir),
        ));
    }
}

/// A folder with a prompt's file removed is one that only the others were queued
/// in.
proof fn lemma_removed(beside: Folder, queue: Seq<Queuing>, at: int)
    requires
        0 <= at < queue.len(),
        forall|k: int|
            0 <= k < queue.len() && k != at ==> (#[trigger] queue[k]).name() != queue[at].name(),
    ensures
        removed(saved_all(beside, queue), queue[at].name()) == saved_all(
            beside.remove(queue[at].name()),
            queue.remove(at),
        ),
    decreases queue.len(),
{
    let rest = queue.drop_last();
    let name = queue[at].name();
    if at == queue.len() - 1 {
        assert(queue.remove(at) =~= rest);
        assert forall|k: int| 0 <= k < rest.len() implies (#[trigger] rest[k]).name() != name by {
            assert(rest[k] == queue[k]);
        }
        lemma_saved_all(beside, rest, name);
        assert(removed(saved_all(beside, queue), name) =~= saved_all(beside, rest).remove(name));
    } else {
        assert forall|k: int| 0 <= k < rest.len() && k != at implies (#[trigger] rest[k]).name()
            != rest[at].name() by {
            assert(rest[k] == queue[k]);
        }
        lemma_removed(beside, rest, at);
        let last = queue[queue.len() - 1];
        assert(last.name() != name);
        assert(queue.remove(at).drop_last() =~= rest.remove(at));
        assert(queue.remove(at).last() == last);
        assert(removed(saved_all(beside, queue), name) =~= last.saved(
            removed(saved_all(beside, rest), name),
        ));
    }
}

/// A prompt whose file is removed is gone from the queue, and the others load back
/// as before. Removing it again changes nothing.
pub proof fn a_prompt_removed_is_gone(
    project_dir: Seq<char>,
    beside: Folder,
    queue: Seq<Queuing>,
    at: int,
    names: Seq<Seq<char>>,
)
    requires
        holds_none(beside),
        queued_in_turn(queue),
        0 <= at < queue.len(),
        lists(names, removed(saved_all(beside, queue), queue[at].name())),
    ensures
        loaded(project_dir, names, removed(saved_all(beside, queue), queue[at].name()))
            == queued_each(project_dir, queue.remove(at)),
        removed(removed(saved_all(beside, queue), queue[at].name()), queue[at].name()) == removed(
            saved_all(beside, queue),
            queue[at].name(),
        ),
{
    let name = queue[at].name();
    assert forall|k: int| 0 <= k < queue.len() && k != at implies (#[trigger] queue[k]).name()
        != name by {
        let (i, j) = if k < at {
            (k, at)
        } else {
            (at, k)
        };
        assert(keeps_order(queue[i].queued_at, queue[j].queued_at));
        names_list_in_the_order_queued(
            queue[i].queued_at,
            queue[j].queued_at,
            queue[i].anchor.name,
            queue[j].anchor.name,
        );
        lemma_before_total(name, name);
    }
    lemma_removed(beside, queue, at);
    let less = queue.remove(at);
    assert(queued_in_turn(less)) by {
        assert forall|i: int, j: int| 0 <= i < j < less.len() implies keeps_order(
            (#[trigger] less[i]).queued_at,
            (#[trigger] less[j]).queued_at,
        ) by {
            let a = if i < at {
                i
            } else {
                i + 1
            };
            let b = if j < at {
                j
            } else {
                j + 1
            };
            assert(less[i] == queue[a] && less[j] == queue[b]);
        }
    }
    assert(holds_none(beside.remove(name)));
    prompts_queued_load_back_in_order(project_dir, beside.remove(name), less, names);
    let gone = removed(saved_all(beside, queue), name);
    assert(removed(gone, name) =~= gone);
}

} // verus!
