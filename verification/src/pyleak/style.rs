//! How the page of a report looks.

use vstd::prelude::*;

verus! {

/// The style sheet of the page.
pub const CSS: &'static str = r#"
:root {
    --bg: #0f1115; --panel: #161922; --border: #262b38;
    --text: #e6e8ee; --muted: #8a90a3;
    --high: #ef4444; --med: #f59e0b; --low: #64748b;
    --accent: #60a5fa;
}
* { box-sizing: border-box; }
body {
    background: var(--bg); color: var(--text);
    font-family: -apple-system, Segoe UI, Roboto, Helvetica, Arial, sans-serif;
    margin: 0; padding: 2rem; line-height: 1.5;
}
.mono { font-family: ui-monospace, SFMono-Regular, Menlo, Consolas, monospace; font-size: 0.9em; }
header h1 { margin: 0; font-size: 2rem; letter-spacing: -0.02em; }
header .subtitle { color: var(--muted); margin-top: 0.25rem; }
header code { color: var(--accent); }
section { margin-top: 2rem; }
h2 { font-size: 1.1rem; text-transform: uppercase; letter-spacing: 0.05em; color: var(--muted); border-bottom: 1px solid var(--border); padding-bottom: 0.5rem; }
h3.filename { color: var(--accent); margin-top: 1.5rem; margin-bottom: 0.5rem; font-size: 1rem; }
.stats { display: flex; gap: 1rem; flex-wrap: wrap; }
.stat { background: var(--panel); border: 1px solid var(--border); border-radius: 10px; padding: 1rem 1.5rem; min-width: 110px; display: flex; flex-direction: column; }
.stat-num { font-size: 1.8rem; font-weight: 700; }
.stat-label { color: var(--muted); font-size: 0.8rem; text-transform: uppercase; letter-spacing: 0.04em; }
.sev-high-bg { border-color: rgba(239,68,68,0.4); }
.sev-high-bg .stat-num { color: var(--high); }
.sev-med-bg { border-color: rgba(245,158,11,0.4); }
.sev-med-bg .stat-num { color: var(--med); }
.sev-low-bg { border-color: rgba(100,116,139,0.4); }
.sev-low-bg .stat-num { color: var(--low); }
table { width: 100%; border-collapse: collapse; background: var(--panel); border: 1px solid var(--border); border-radius: 10px; overflow: hidden; }
table th, table td { text-align: left; padding: 0.6rem 0.8rem; border-bottom: 1px solid var(--border); font-size: 0.9rem; }
table th { color: var(--muted); font-weight: 600; font-size: 0.78rem; text-transform: uppercase; letter-spacing: 0.04em; }
table tr:last-child td { border-bottom: none; }
.tag { padding: 0.15rem 0.5rem; border-radius: 6px; font-size: 0.78rem; }
.tag-spawn { background: rgba(96,165,250,0.15); color: var(--accent); }
.tag-import { background: rgba(138,144,163,0.15); color: var(--muted); }
.findings { display: flex; flex-direction: column; gap: 0.6rem; }
.finding { background: var(--panel); border: 1px solid var(--border); border-left-width: 4px; border-radius: 8px; padding: 0.8rem 1rem; }
.finding.sev-high { border-left-color: var(--high); }
.finding.sev-med { border-left-color: var(--med); }
.finding.sev-low { border-left-color: var(--low); }
.finding-head { display: flex; align-items: center; gap: 0.7rem; flex-wrap: wrap; }
.badge { font-size: 0.72rem; font-weight: 700; padding: 0.15rem 0.5rem; border-radius: 5px; }
.badge.sev-high { background: rgba(239,68,68,0.18); color: var(--high); }
.badge.sev-med { background: rgba(245,158,11,0.18); color: var(--med); }
.badge.sev-low { background: rgba(100,116,139,0.18); color: var(--low); }
.loc { color: var(--muted); font-size: 0.85rem; }
.func { color: var(--accent); }
.category { color: var(--muted); font-size: 0.8rem; margin-left: auto; }
.message { margin: 0.5rem 0 0; color: var(--text); font-size: 0.92rem; }
.empty { color: #4ade80; font-weight: 600; }
footer { margin-top: 2.5rem; color: var(--muted); font-size: 0.8rem; border-top: 1px solid var(--border); padding-top: 1rem; }
"#;

} // verus!
