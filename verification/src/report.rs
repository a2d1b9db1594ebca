//! The comparison result and the self-contained HTML report page.
use vstd::prelude::*;

use crate::text::{
    owned, push_str,
};

verus! {

broadcast use vstd::string::group_string_axioms;

/// Errors raised while writing a report.
#[derive(Debug)]
pub enum ReportError {
    /// The report could not be written.
    Io(String),
    /// The page could not be rendered.
    Template(String),
    /// The result could not be serialised.
    Serialize(String),
}

/// What a comparison run found, by image name (the `out.json` record).
#[derive(Debug, Clone)]
pub struct ComparisonResult {
    pub failed_items: Vec<String>,
    pub new_items: Vec<String>,
    pub deleted_items: Vec<String>,
    pub passed_items: Vec<String>,
    pub expected_items: Vec<String>,
    pub actual_items: Vec<String>,
    pub diff_items: Vec<String>,
    pub actual_dir: String,
    pub expected_dir: String,
    pub diff_dir: String,
}

/// Some image differs from its expected version.
pub open spec fn failures_of(c: ComparisonResult) -> bool {
    c.failed_items@.len() > 0
}

/// Some image differs, appeared or disappeared.
pub open spec fn changes_of(c: ComparisonResult) -> bool {
    c.failed_items@.len() > 0 || c.new_items@.len() > 0 || c.deleted_items@.len() > 0
}

impl ComparisonResult {
    /// Whether any image failed the comparison.
    pub fn has_failures(&self) -> (r: bool)
        ensures
            r == failures_of(*self),
    {
        self.failed_items.len() > 0
    }

    /// Whether any image failed, is new, or was deleted.
    pub fn has_changes(&self) -> (r: bool)
        ensures
            r == changes_of(*self),
    {
        self.failed_items.len() > 0 || self.new_items.len() > 0 || self.deleted_items.len() > 0
    }
}

/// A failing comparison is always a changed one.
pub proof fn lemma_failures_are_changes(c: ComparisonResult)
    ensures
        failures_of(c) ==> changes_of(c),
{
}

/// Page icon when some image failed.
pub const FAVICON_FAILURE: &'static str = "data:image/svg+xml,<svg xmlns='http://www.w3.org/2000/svg' viewBox='0 0 100 100'><text y='.9em' font-size='90'>❌</text></svg>";

/// Page icon when every image passed.
pub const FAVICON_SUCCESS: &'static str = "data:image/svg+xml,<svg xmlns='http://www.w3.org/2000/svg' viewBox='0 0 100 100'><text y='.9em' font-size='90'>✅</text></svg>";

/// The page's style sheet.
pub const REPORT_CSS: &'static str = "body{font-family:-apple-system,BlinkMacSystemFont,sans-serif;margin:0;background:#fafafa;color:#222}\n.header{display:flex;align-items:center;gap:16px;padding:16px 24px;background:#24292e;color:#fff}\n.tabs{display:flex;gap:8px;padding:8px 24px;border-bottom:1px solid #ddd}\n.tab{cursor:pointer;padding:6px 12px;border-radius:4px}\n.tab.active{background:#0366d6;color:#fff}\n.tab-panel{display:none;padding:16px 24px}\n.tab-panel.active{display:block}\n.item{margin:16px 0;border:1px solid #ddd;border-radius:4px;background:#fff;padding:12px}\n.slider-container{position:relative;overflow:hidden;display:inline-block}\n.slider-container img{display:block;max-width:100%}\n.slider-container .after{position:absolute;top:0;left:0;overflow:hidden;width:50%}\n";

/// The page's script: reads the embedded result and builds the tabs.
pub const REPORT_JS: &'static str = "(function(){\nvar data=JSON.parse(document.getElementById('reg-data').textContent);\nvar groups=[['Changed',data.failedItems,data.diffDir],['New',data.newItems,data.actualDir],['Deleted',data.deletedItems,data.expectedDir],['Passed',data.passedItems,data.actualDir]];\nvar tabs=document.createElement('div');tabs.className='tabs';\nvar main=document.getElementById('app');main.appendChild(tabs);\ngroups.forEach(function(g,i){\nvar t=document.createElement('span');t.className='tab'+(i===0?' active':'');t.textContent=g[0]+' ('+g[1].length+')';tabs.appendChild(t);\nvar p=document.createElement('div');p.className='tab-panel'+(i===0?' active':'');main.appendChild(p);\ng[1].forEach(function(name){var d=document.createElement('div');d.className='item';var h=document.createElement('h3');h.textContent=name;d.appendChild(h);var c=document.createElement('div');c.className='slider-container';var im=document.createElement('img');im.src=g[2]+'/'+name;c.appendChild(im);d.appendChild(c);p.appendChild(d);});\nt.onclick=function(){document.querySelectorAll('.tab').forEach(function(x){x.classList.remove('active');});document.querySelectorAll('.tab-panel').forEach(function(x){x.classList.remove('active');});t.classList.add('active');p.classList.add('active');};\n});\n})();\n";

/// Loader of the in-browser diff module, present when it is enabled.
pub const XIMGDIFF_LOADER: &'static str = "<script type=\"module\">\nimport init from \"./kaiki_diff_wasm.js\";\ninit().then(function(){window.dispatchEvent(new Event(\"kaiki-wasm-ready\"));});\n</script>\n";

/// Start of the page, up to the icon.
pub const PAGE_HEAD: &'static str = "<!DOCTYPE html>\n<html lang=\"en\">\n<head>\n<meta charset=\"utf-8\">\n<title>reg report</title>\n<link rel=\"icon\" href=\"";

/// Between the icon and the style sheet.
pub const PAGE_STYLE: &'static str = "\">\n<style>\n";

/// Between the style sheet and the embedded result.
pub const PAGE_BODY: &'static str = "</style>\n</head>\n<body>\n<div class=\"header\"><h1>reg report</h1></div>\n<div id=\"app\"></div>\n<script id=\"reg-data\" type=\"application/json\">";

/// Between the embedded result and the script.
pub const PAGE_SCRIPT: &'static str = "</script>\n<script>\n";

/// Closes the script.
pub const PAGE_SCRIPT_END: &'static str = "</script>\n";

/// End of the page.
pub const PAGE_END: &'static str = "</body>\n</html>\n";

/// The icon for a run with or without failures.
pub open spec fn favicon(has_failures: bool) -> Seq<char> {
    if has_failures {
        FAVICON_FAILURE@
    } else {
        FAVICON_SUCCESS@
    }
}

/// The report page for the serialised result `json`.
pub open spec fn report_page(json: Seq<char>, has_failures: bool, ximgdiff_enabled: bool) -> Seq<char> {
    PAGE_HEAD@ + favicon(has_failures) + PAGE_STYLE@ + REPORT_CSS@ + PAGE_BODY@ + json + PAGE_SCRIPT@
        + REPORT_JS@ + PAGE_SCRIPT_END@ + loader(ximgdiff_enabled) + PAGE_END@
}

/// The diff module loader, when enabled.
pub open spec fn loader(ximgdiff_enabled: bool) -> Seq<char> {
    if ximgdiff_enabled {
        XIMGDIFF_LOADER@
    } else {
        Seq::<char>::empty()
    }
}

/// Renders the HTML report page around the serialised comparison result.
pub fn render_html_report(json_data: &str, has_failures: bool, ximgdiff_enabled: bool) -> (r: Result<
    String,
    ReportError,
>)
    ensures
        r matches Ok(page) && page@ == report_page(json_data@, has_failures, ximgdiff_enabled),
{
    let mut page = owned(PAGE_HEAD);
    if has_failures {
        push_str(&mut page, FAVICON_FAILURE);
    } else {
        push_str(&mut page, FAVICON_SUCCESS);
    }
    push_str(&mut page, PAGE_STYLE);
    push_str(&mut page, REPORT_CSS);
    push_str(&mut page, PAGE_BODY);
    push_str(&mut page, json_data);
    push_str(&mut page, PAGE_SCRIPT);
    push_str(&mut page, REPORT_JS);
    push_str(&mut page, PAGE_SCRIPT_END);
    let ghost base = page@;
    if ximgdiff_enabled {
        push_str(&mut page, XIMGDIFF_LOADER);
    } else {
        proof {
            assert(base + Seq::<char>::empty() =~= base);
        }
    }
    push_str(&mut page, PAGE_END);
    Ok(page)
}

/// Writes the in-browser diff assets; this build embeds none, so there is
/// nothing to write.
pub fn write_ximgdiff_assets(output_dir: &str) -> (r: Result<(), ReportError>)
    ensures
        r is Ok,
{
    Ok(())
}

} // verus!
