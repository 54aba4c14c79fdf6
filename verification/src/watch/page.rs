//! What is written: the lines of the log and the page.

use crate::clock::{is_moment, is_time_of_day, local_time, utc_time};
use crate::text::{decimal, decimal_text, law_replaced, occurs, replace, replaced, stands_at};
use crate::watch::gpu::{gpu_label, gpu_note};
use vstd::prelude::*;

verus! {

/// A window of time in words: in minutes, or in whole hours from two hours on.
pub open spec fn window_text(minutes: nat) -> Seq<char> {
    if minutes < 120 {
        decimal(minutes) + "m"@
    } else {
        decimal(minutes / 60) + "h"@
    }
}

/// A window of time in words.
pub fn window_label(minutes: u64) -> (r: String)
    ensures
        r@ == window_text(minutes as nat),
{
    if minutes < 120 {
        let mut r = decimal_text(minutes as u128);
        r.append("m");
        r
    } else {
        let mut r = decimal_text((minutes / 60) as u128);
        r.append("h");
        r
    }
}

// ---- the log -------------------------------------------------------------------------------

/// What is logged at the start.
pub open spec fn start_text(
    root: u32,
    label: Seq<char>,
    interval: u64,
    minutes: u64,
    devices: Option<u32>,
) -> Seq<char> {
    "leakwatch start: root pid="@ + decimal(root as nat) + " ("@ + label + ") interval="@ + decimal(
        interval as nat,
    ) + "s window="@ + window_text(minutes as nat) + " gpus="@ + gpu_note(devices)
}

/// What is logged at the start: the root and its label, the seconds between samples, the
/// minutes of the window and the number of graphics devices.
pub fn start_message(
    root: u32,
    label: &str,
    interval: u64,
    minutes: u64,
    devices: Option<u32>,
) -> (r: String)
    ensures
        r@ == start_text(root, label@, interval, minutes, devices),
{
    let mut r = String::from_str("leakwatch start: root pid=");
    r.append(&decimal_text(root as u128));
    r.append(" (");
    r.append(label);
    r.append(") interval=");
    r.append(&decimal_text(interval as u128));
    r.append("s window=");
    r.append(&window_label(minutes));
    r.append(" gpus=");
    r.append(&gpu_label(devices));
    r
}

/// What is logged of a leak.
pub open spec fn leak_text(
    label: Seq<char>,
    rss_floor: Seq<char>,
    vram_floor: Seq<char>,
    rss_last: Seq<char>,
    vram_last: Seq<char>,
) -> Seq<char> {
    "LEAK FLAGGED  "@ + label + "  floor RSS +"@ + rss_floor + "/hr, VRAM +"@ + vram_floor
        + "/hr  (now RSS "@ + rss_last + ", VRAM "@ + vram_last + ")"@
}

/// What is logged of a leak: how fast the floors rise and what is held now, in words.
pub fn leak_message(
    label: &str,
    rss_floor: &str,
    vram_floor: &str,
    rss_last: &str,
    vram_last: &str,
) -> (r: String)
    ensures
        r@ == leak_text(label@, rss_floor@, vram_floor@, rss_last@, vram_last@),
{
    let mut r = String::from_str("LEAK FLAGGED  ");
    r.append(label);
    r.append("  floor RSS +");
    r.append(rss_floor);
    r.append("/hr, VRAM +");
    r.append(vram_floor);
    r.append("/hr  (now RSS ");
    r.append(rss_last);
    r.append(", VRAM ");
    r.append(vram_last);
    r.append(")");
    r
}

/// What is logged where the root is gone.
pub fn exit_message(root: u32) -> (r: String)
    ensures
        r@ == "root pid "@ + decimal(root as nat) + " exited — stopping"@,
{
    let mut r = String::from_str("root pid ");
    r.append(&decimal_text(root as u128));
    r.append(" exited — stopping");
    r
}

/// A line of the log: the time, two spaces and the message.
pub open spec fn line_text(time: Seq<char>, message: Seq<char>) -> Seq<char> {
    time + "  "@ + message
}

/// A line of the log at the given time.
pub fn log_line_at(time: &str, message: &str) -> (r: String)
    ensures
        r@ == line_text(time@, message@),
{
    let mut r = String::from_str(time);
    r.append("  ");
    r.append(message);
    r
}

/// A line of the log at the present time.
pub fn log_line(message: &str) -> (r: String)
    ensures
        exists|time: Seq<char>| is_moment(time) && r@ == #[trigger] line_text(time, message@),
{
    let time = utc_time();
    log_line_at(&time, message)
}

// ---- the page ------------------------------------------------------------------------------

/// What the page says of the watch itself.
#[derive(Debug)]
pub struct Meta {
    pub root_pid: u32,
    pub root_label: String,
    pub tree_count: usize,
    pub window_label: String,
    pub refresh: u64,
    pub updated: String,
}

/// After how many seconds the page is read again: as many as lie between samples, and no
/// fewer than ten.
pub open spec fn refresh_after(interval: u64) -> u64 {
    if interval < 10 {
        10
    } else {
        interval
    }
}

/// What the page says of the watch itself, at the given time of day.
pub fn page_meta_at(
    root: u32,
    label: &str,
    tree_count: usize,
    minutes: u64,
    interval: u64,
    updated: String,
) -> (r: Meta)
    ensures
        r.root_pid == root,
        r.root_label@ == label@,
        r.tree_count == tree_count,
        r.window_label@ == window_text(minutes as nat),
        r.refresh == refresh_after(interval),
        r.updated == updated,
{
    let refresh: u64 = if interval < 10 {
        10
    } else {
        interval
    };
    Meta {
        root_pid: root,
        root_label: String::from_str(label),
        tree_count,
        window_label: window_label(minutes),
        refresh,
        updated,
    }
}

/// What the page says of the watch itself, at the present time of day.
pub fn page_meta(
    root: u32,
    label: &str,
    tree_count: usize,
    minutes: u64,
    interval: u64,
) -> (r: Meta)
    ensures
        r.root_pid == root,
        r.root_label@ == label@,
        r.tree_count == tree_count,
        r.window_label@ == window_text(minutes as nat),
        r.refresh == refresh_after(interval),
        is_time_of_day(r.updated@),
{
    page_meta_at(root, label, tree_count, minutes, interval, local_time("%H:%M:%S"))
}

/// A page: the template with the seconds after which it is read again in place of
/// `__REFRESH__`, and then the data in place of `__PAYLOAD__`.
pub open spec fn page_text(template: Seq<char>, refresh: u64, payload: Seq<char>) -> Seq<char> {
    replaced(
        replaced(template, "__REFRESH__"@, decimal(refresh as nat)),
        "__PAYLOAD__"@,
        payload,
    )
}

/// Fills in the template of a page.
pub fn render_html(template: &str, refresh: u64, payload: &str) -> (r: String)
    ensures
        r@ == page_text(template@, refresh, payload@),
{
    proof {
        reveal_strlit("__REFRESH__");
        reveal_strlit("__PAYLOAD__");
    }
    let timed = replace(template, "__REFRESH__", &decimal_text(refresh as u128));
    replace(&timed, "__PAYLOAD__", payload)
}

// ---- what the texts say --------------------------------------------------------------------

/// A window below two hours is given in minutes; from two hours on in hours, of which an
/// unfinished one does not count.
pub proof fn law_window_text(minutes: nat, hours: nat)
    ensures
        minutes < 120 ==> window_text(minutes) == decimal(minutes) + seq!['m'],
        minutes >= 120 && 60 * hours <= minutes && minutes < 60 * (hours + 1) ==> window_text(
            minutes,
        ) == decimal(hours) + seq!['h'],
{
    reveal_strlit("m");
    reveal_strlit("h");
    assert("m"@ =~= seq!['m']);
    assert("h"@ =~= seq!['h']);
    if minutes >= 120 && 60 * hours <= minutes && minutes < 60 * (hours + 1) {
        assert(minutes / 60 == hours);
    }
}

/// The page is read again after as many seconds as lie between samples, but never after fewer
/// than ten.
pub proof fn law_refresh_after(interval: u64)
    ensures
        refresh_after(interval) >= 10,
        refresh_after(interval) >= interval,
        refresh_after(interval) == 10 || refresh_after(interval) == interval,
{
}

/// The start line names the root, its label, the interval, the window and the devices.
pub proof fn law_start_text(
    root: u32,
    label: Seq<char>,
    interval: u64,
    minutes: u64,
    devices: Option<u32>,
)
    ensures
        ({
            let s = start_text(root, label, interval, minutes, devices);
            &&& occurs(s, "pid="@ + decimal(root as nat) + " "@)
            &&& occurs(s, "("@ + label + ")"@)
            &&& occurs(s, " interval="@ + decimal(interval as nat) + "s"@)
            &&& occurs(s, " window="@ + window_text(minutes as nat) + " "@)
            &&& occurs(s, " gpus="@ + gpu_note(devices))
        }),
{
    reveal_strlit("leakwatch start: root pid=");
    reveal_strlit(" (");
    reveal_strlit(") interval=");
    reveal_strlit("s window=");
    reveal_strlit(" gpus=");
    reveal_strlit("pid=");
    reveal_strlit(" ");
    reveal_strlit("(");
    reveal_strlit(")");
    reveal_strlit(" interval=");
    reveal_strlit("s");
    reveal_strlit(" window=");
    let s = start_text(root, label, interval, minutes, devices);
    let a = "leakwatch start: root pid="@;
    let p = decimal(root as nat);
    let b = " ("@;
    let c = ") interval="@;
    let i = decimal(interval as nat);
    let d = "s window="@;
    let w = window_text(minutes as nat);
    let e = " gpus="@;
    let g = gpu_note(devices);
    lemma_part(s, "pid="@ + p + " "@, a.len() - 4);
    let at: int = a.len() + p.len() as int;
    lemma_part(s, "("@ + label + ")"@, at + 1);
    let at: int = at + b.len() + label.len();
    lemma_part(s, " interval="@ + i + "s"@, at + 1);
    let at: int = at + c.len() + i.len();
    lemma_part(s, " window="@ + w + " "@, at + 1);
    let at: int = at + d.len() + w.len();
    lemma_part(s, " gpus="@ + g, at);
}

proof fn lemma_part(s: Seq<char>, part: Seq<char>, at: int)
    ensures
        0 <= at && at + part.len() <= s.len() && s.subrange(at, at + part.len()) =~= part
            ==> occurs(s, part),
{
    if 0 <= at && at + part.len() <= s.len() && s.subrange(at, at + part.len()) =~= part {
        assert(stands_at(s, part, at));
    }
}

/// The line on a leak names the label, how fast each floor rises and how much is held now, of
/// memory in the machine and on devices.
pub proof fn law_leak_text(
    label: Seq<char>,
    rss_floor: Seq<char>,
    vram_floor: Seq<char>,
    rss_last: Seq<char>,
    vram_last: Seq<char>,
)
    ensures
        ({
            let s = leak_text(label, rss_floor, vram_floor, rss_last, vram_last);
            &&& occurs(s, "LEAK FLAGGED  "@ + label + " "@)
            &&& occurs(s, "floor RSS +"@ + rss_floor + "/hr"@)
            &&& occurs(s, ", VRAM +"@ + vram_floor + "/hr"@)
            &&& occurs(s, "(now RSS "@ + rss_last + ","@)
            &&& occurs(s, ", VRAM "@ + vram_last + ")"@)
        }),
{
    reveal_strlit("LEAK FLAGGED  ");
    reveal_strlit("  floor RSS +");
    reveal_strlit("/hr, VRAM +");
    reveal_strlit("/hr  (now RSS ");
    reveal_strlit(", VRAM ");
    reveal_strlit(")");
    reveal_strlit(" ");
    reveal_strlit("floor RSS +");
    reveal_strlit("/hr");
    reveal_strlit(", VRAM +");
    reveal_strlit("(now RSS ");
    reveal_strlit(",");
    let s = leak_text(label, rss_floor, vram_floor, rss_last, vram_last);
    let a = "LEAK FLAGGED  "@;
    let b = "  floor RSS +"@;
    let c = "/hr, VRAM +"@;
    let d = "/hr  (now RSS "@;
    let e = ", VRAM "@;
    lemma_part(s, a + label + " "@, 0);
    let at: int = a.len() + label.len() as int;
    lemma_part(s, "floor RSS +"@ + rss_floor + "/hr"@, at + 2);
    let at: int = at + b.len() + rss_floor.len();
    lemma_part(s, ", VRAM +"@ + vram_floor + "/hr"@, at + 3);
    let at: int = at + c.len() + vram_floor.len();
    lemma_part(s, "(now RSS "@ + rss_last + ","@, at + 5);
    let at: int = at + d.len() + rss_last.len();
    lemma_part(s, ", VRAM "@ + vram_last + ")"@, at);
}

/// A line of the log is the time, two spaces and the message.
pub proof fn law_line_text(time: Seq<char>, message: Seq<char>)
    ensures
        line_text(time, message) == time + seq![' ', ' '] + message,
{
    reveal_strlit("  ");
    assert("  "@ =~= seq![' ', ' ']);
}

/// In a template with one mark for the seconds and, behind it, one for the data, these stand in
/// the place of the marks, and all else is kept.
pub proof fn law_page_text(
    a: Seq<char>,
    b: Seq<char>,
    c: Seq<char>,
    refresh: u64,
    payload: Seq<char>,
)
    requires
        ({
            let first = "__REFRESH__"@;
            let second = "__PAYLOAD__"@;
            let rest = b + second + c;
            let timed = a + decimal(refresh as nat) + rest;
            &&& forall|k: int| 0 <= k < a.len() ==> !stands_at(a + first + rest, first, k)
            &&& !occurs(rest, first)
            &&& forall|k: int|
                0 <= k < a.len() + decimal(refresh as nat).len() + b.len() ==> !stands_at(
                    timed,
                    second,
                    k,
                )
            &&& !occurs(c, second)
        }),
    ensures
        page_text(a + "__REFRESH__"@ + (b + "__PAYLOAD__"@ + c), refresh, payload) == a + decimal(
            refresh as nat,
        ) + b + payload + c,
{
    reveal_strlit("__REFRESH__");
    reveal_strlit("__PAYLOAD__");
    let first = "__REFRESH__"@;
    let second = "__PAYLOAD__"@;
    let number = decimal(refresh as nat);
    let rest = b + second + c;
    let template = a + first + rest;
    let n = a.len() as int;
    assert(template.subrange(n, n + first.len()) =~= first);
    assert(stands_at(template, first, n));
    law_replaced(template, first, number, n);
    assert(template.take(n) =~= a);
    assert(template.skip(n + first.len()) =~= rest);
    law_replaced(rest, first, number, 0);
    let timed = a + number + rest;
    assert(replaced(template, first, number) == timed);
    let m = (a.len() + number.len() + b.len()) as int;
    assert(timed.subrange(m, m + second.len()) =~= second);
    assert(stands_at(timed, second, m));
    law_replaced(timed, second, payload, m);
    assert(timed.take(m) =~= a + number + b);
    assert(timed.skip(m + second.len()) =~= c);
    law_replaced(c, second, payload, 0);
}

} // verus!
