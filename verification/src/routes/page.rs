//! The HTML page that shows a diff: it loads `diff2html`, which draws the
//! diff, and links to the raw diff.

use vstd::prelude::*;
use vstd::string::StringExecFns;

verus! {

broadcast use vstd::string::group_string_axioms;

/// The page up to its title.
pub const PAGE_HEAD: &'static str = r##"<!DOCTYPE html>
<html lang="en">
<head>
  <meta charset="utf-8" />
  <meta name="viewport" content="width=device-width, initial-scale=1.0" />
  <title>Diff: "##;

/// The end of the title, the style sheet and the start of the header bar.
pub const PAGE_STYLE: &'static str = r##")</title>
  <link rel="stylesheet" href="https://cdn.jsdelivr.net/npm/diff2html/bundles/css/diff2html.min.css" />
  <link rel="stylesheet" href="https://fonts.googleapis.com/css2?family=Inter:wght@400;500;600;700&family=JetBrains+Mono:wght@400;500&display=swap" />
  <style>
    :root {
      --bg-color: #f8f9fa;
      --card-bg: #ffffff;
      --text-color: #2e2e38;
      --border-color: #e5e5ed;
      --primary: #e24329;
      --primary-hover: #c0341d;
      --addition-bg: #ecf7ed;
      --addition-line: #cdedd0;
      --addition-text: #116620;
      --deletion-bg: #fcf0f0;
      --deletion-line: #f7d4d4;
      --deletion-text: #af1919;
    }

    body {
      margin: 0;
      padding: 0;
      font-family: 'Inter', -apple-system, BlinkMacSystemFont, "Segoe UI", Roboto, sans-serif;
      background-color: var(--bg-color);
      color: var(--text-color);
    }

    .header-bar {
      position: sticky;
      top: 0;
      z-index: 100;
      background: #ffffff;
      border-bottom: 1px solid var(--border-color);
      padding: 12px 24px;
      display: flex;
      align-items: center;
      justify-content: space-between;
      box-shadow: 0 1px 3px rgba(0,0,0,0.05);
    }

    .header-title {
      display: flex;
      align-items: center;
      gap: 12px;
      font-size: 1.1rem;
      font-weight: 600;
    }

    .package-name {
      color: #1f1e24;
      font-family: 'JetBrains Mono', monospace;
    }

    .version-badge {
      background: #e9ecef;
      color: #495057;
      padding: 4px 8px;
      border-radius: 6px;
      font-size: 0.85rem;
      font-family: 'JetBrains Mono', monospace;
      font-weight: 500;
    }

    .controls {
      display: flex;
      align-items: center;
      gap: 12px;
    }

    .btn {
      display: inline-flex;
      align-items: center;
      gap: 6px;
      padding: 6px 14px;
      font-size: 0.875rem;
      font-weight: 500;
      color: #333238;
      background-color: #ffffff;
      border: 1px solid #d1d1d8;
      border-radius: 6px;
      text-decoration: none;
      cursor: pointer;
      transition: all 0.15s ease;
    }

    .btn:hover {
      background-color: #f2f2f5;
      border-color: #b0b0b8;
    }

    .main-container {
      max-width: 1400px;
      margin: 24px auto;
      padding: 0 24px;
    }

    .d2h-file-wrapper {
      border: 1px solid var(--border-color) !important;
      border-radius: 8px !important;
      margin-bottom: 20px !important;
      box-shadow: 0 1px 2px rgba(0,0,0,0.03) !important;
      overflow: hidden;
    }

    .d2h-file-header {
      background-color: #fafafa !important;
      border-bottom: 1px solid var(--border-color) !important;
      padding: 10px 16px !important;
      font-family: 'JetBrains Mono', monospace !important;
      font-size: 0.9rem !important;
    }

    .d2h-file-name {
      color: #2e2e38 !important;
      font-weight: 600 !important;
    }

    .d2h-del {
      background-color: var(--deletion-bg) !important;
      border-color: var(--deletion-line) !important;
    }
    .d2h-del td {
      color: var(--deletion-text) !important;
    }

    .d2h-ins {
      background-color: var(--addition-bg) !important;
      border-color: var(--addition-line) !important;
    }
    .d2h-ins td {
      color: var(--addition-text) !important;
    }

    .d2h-code-line del {
      background-color: #f7b0b0 !important;
      text-decoration: none !important;
      border-radius: 2px;
    }

    .d2h-code-line ins {
      background-color: #a3e9b3 !important;
      text-decoration: none !important;
      border-radius: 2px;
    }

    .d2h-code-line, .d2h-code-linenumber {
      font-family: 'JetBrains Mono', monospace !important;
      font-size: 0.85rem !important;
    }

    .d2h-code-linenumber {
      color: #898894 !important;
      background-color: #fafafa !important;
      border-right: 1px solid var(--border-color) !important;
    }
  </style>
</head>
<body>
  <div class="header-bar">
    <div class="header-title">
      <svg width="22" height="22" viewBox="0 0 24 24" fill="none" stroke="currentColor" stroke-width="2" stroke-linecap="round" stroke-linejoin="round">
        <circle cx="18" cy="18" r="3"></circle>
        <circle cx="6" cy="6" r="3"></circle>
        <path d="M13 6h3a2 2 0 0 1 2 2v7"></path>
        <line x1="6" y1="9" x2="6" y2="21"></line>
      </svg>
      <span class="package-name">"##;

/// Between the package name and the version badge.
pub const PAGE_BADGE: &'static str = r##"</span>
      <span class="version-badge">"##;

/// Between the version badge and the link to the raw diff.
pub const PAGE_CONTROLS: &'static str = r##"</span>
    </div>
    <div class="controls">
      <button id="toggle-view" class="btn">Side-by-Side View</button>
      <a href=""##;

/// Between the link to the raw diff and the diff, which the script reads.
pub const PAGE_SCRIPT: &'static str = r##"" class="btn">Raw Diff</a>
    </div>
  </div>

  <div class="main-container">
    <div id="diff-target"></div>
  </div>

  <script src="https://cdn.jsdelivr.net/npm/diff2html/bundles/js/diff2html-ui.min.js"></script>
  <script>
    const diffString = "##;

/// The rest of the script and the end of the page.
pub const PAGE_TAIL: &'static str = r##";
    const targetElement = document.getElementById("diff-target");
    let currentOutputType = "line-by-line";

    function renderDiff(outputType) {
      const diff2htmlUi = new Diff2HtmlUI(targetElement, diffString, {
        drawFileList: true,
        matching: "lines",
        outputFormat: outputType,
        renderNothingWhenEmpty: false,
      });
      diff2htmlUi.draw();
    }

    renderDiff(currentOutputType);

    document.getElementById("toggle-view").addEventListener("click", function() {
      if (currentOutputType === "line-by-line") {
        currentOutputType = "side-by-side";
        this.textContent = "Line-by-Line View";
      } else {
        currentOutputType = "line-by-line";
        this.textContent = "Side-by-Side View";
      }
      renderDiff(currentOutputType);
    });
  </script>
</body>
</html>"##;

/// The diff page: the package and both versions in its title and header, a
/// link to the raw diff, and the diff itself, as a JSON string, for the
/// script that draws it.
pub open spec fn html_page(
    package_name: Seq<char>,
    v1: Seq<char>,
    v2: Seq<char>,
    diff_json: Seq<char>,
    raw_url: Seq<char>,
) -> Seq<char> {
    PAGE_HEAD@
        + package_name
        + " ("@
        + v1
        + " &rarr; "@
        + v2
        + PAGE_STYLE@
        + package_name
        + PAGE_BADGE@
        + v1
        + " &rarr; "@
        + v2
        + PAGE_CONTROLS@
        + raw_url
        + PAGE_SCRIPT@
        + diff_json
        + PAGE_TAIL@
}

/// Renders the diff page for `package_name` between versions `v1` and `v2`.
pub fn render_html_page(
    package_name: &str,
    v1: &str,
    v2: &str,
    diff_json: &str,
    raw_url: &str,
) -> (r: String)
    ensures
        r@ == html_page(package_name@, v1@, v2@, diff_json@, raw_url@),
{
    let mut html = String::new();
    html.append(PAGE_HEAD);
    html.append(package_name);
    html.append(" (");
    html.append(v1);
    html.append(" &rarr; ");
    html.append(v2);
    html.append(PAGE_STYLE);
    html.append(package_name);
    html.append(PAGE_BADGE);
    html.append(v1);
    html.append(" &rarr; ");
    html.append(v2);
    html.append(PAGE_CONTROLS);
    html.append(raw_url);
    html.append(PAGE_SCRIPT);
    html.append(diff_json);
    html.append(PAGE_TAIL);
    assert(html@ =~= html_page(package_name@, v1@, v2@, diff_json@, raw_url@));
    html
}

} // verus!
