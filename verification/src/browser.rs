//! How the browser is found and started.

use crate::sitemap::texts;
use vstd::prelude::*;

verus! {

/// The arguments with which the browser is started, in their order.
pub open spec fn arguments() -> Seq<Seq<char>> {
    seq![
        "--disable-web-security"@,
        "--disable-features=VizDisplayCompositor"@,
        "--disable-font-subpixel-positioning"@,
        "--export-tagged-pdf"@,
        "--force-renderer-accessibility"@,
        "--no-sandbox"@,
        "--disable-dev-shm-usage"@,
        "--disable-gpu"@,
        "--user-agent=Mozilla/5.0 (Macintosh; Intel Mac OS X 10_15_7) AppleWebKit/537.36 (KHTML, like Gecko) Chrome/120.0.0.0 Safari/537.36"@,
        "--disable-blink-features=AutomationControlled"@,
        "--no-first-run"@,
        "--no-default-browser-check"@,
        "--disable-features=ChromeWhatsNewUI,TabHoverCardImages,TabHoverCards,OmniboxOnDeviceHeadSuggestions"@,
        "--disable-background-networking"@,
        "--disable-renderer-backgrounding"@,
        "--disable-client-side-phishing-detection"@,
        "--disable-component-update"@,
        "--disable-domain-reliability"@,
        "--disable-default-apps"@,
        "--disable-sync"@,
        "--disable-ntp-most-likely-favicons-from-server"@,
        "--disable-features=NewTabPage"@,
        "--homepage=about:blank"@,
        "--new-window"@,
        "about:blank"@,
    ]
}

/// The arguments with which the browser is started, in their order.
pub fn browser_arguments() -> (list: Vec<String>)
    ensures
        texts(list@) == arguments(),
{
    let mut list: Vec<String> = Vec::new();
    list.push("--disable-web-security".to_owned());
    list.push("--disable-features=VizDisplayCompositor".to_owned());
    list.push("--disable-font-subpixel-positioning".to_owned());
    list.push("--export-tagged-pdf".to_owned());
    list.push("--force-renderer-accessibility".to_owned());
    list.push("--no-sandbox".to_owned());
    list.push("--disable-dev-shm-usage".to_owned());
    list.push("--disable-gpu".to_owned());
    list.push("--user-agent=Mozilla/5.0 (Macintosh; Intel Mac OS X 10_15_7) AppleWebKit/537.36 (KHTML, like Gecko) Chrome/120.0.0.0 Safari/537.36".to_owned());
    list.push("--disable-blink-features=AutomationControlled".to_owned());
    list.push("--no-first-run".to_owned());
    list.push("--no-default-browser-check".to_owned());
    list.push("--disable-features=ChromeWhatsNewUI,TabHoverCardImages,TabHoverCards,OmniboxOnDeviceHeadSuggestions".to_owned());
    list.push("--disable-background-networking".to_owned());
    list.push("--disable-renderer-backgrounding".to_owned());
    list.push("--disable-client-side-phishing-detection".to_owned());
    list.push("--disable-component-update".to_owned());
    list.push("--disable-domain-reliability".to_owned());
    list.push("--disable-default-apps".to_owned());
    list.push("--disable-sync".to_owned());
    list.push("--disable-ntp-most-likely-favicons-from-server".to_owned());
    list.push("--disable-features=NewTabPage".to_owned());
    list.push("--homepage=about:blank".to_owned());
    list.push("--new-window".to_owned());
    list.push("about:blank".to_owned());
    proof {
        assert(texts(list@) =~= arguments());
    }
    list
}

/// The names under which the browser is looked for on the search path, in
/// their order.
pub open spec fn commands() -> Seq<Seq<char>> {
    seq![
        "chromium"@,
        "google-chrome"@,
    ]
}

/// The names under which the browser is looked for on the search path, in
/// their order.
pub fn browser_commands() -> (list: Vec<String>)
    ensures
        texts(list@) == commands(),
{
    let mut list: Vec<String> = Vec::new();
    list.push("chromium".to_owned());
    list.push("google-chrome".to_owned());
    proof {
        assert(texts(list@) =~= commands());
    }
    list
}

/// The places at which the browser is looked for after that, in their order.
pub open spec fn paths() -> Seq<Seq<char>> {
    seq![
        "/Applications/Chromium.app/Contents/MacOS/Chromium"@,
        "/Applications/Google Chrome.app/Contents/MacOS/Google Chrome"@,
    ]
}

/// The places at which the browser is looked for after that, in their order.
pub fn browser_paths() -> (list: Vec<String>)
    ensures
        texts(list@) == paths(),
{
    let mut list: Vec<String> = Vec::new();
    list.push("/Applications/Chromium.app/Contents/MacOS/Chromium".to_owned());
    list.push("/Applications/Google Chrome.app/Contents/MacOS/Google Chrome".to_owned());
    proof {
        assert(texts(list@) =~= paths());
    }
    list
}

/// How often a page that is not ready is asked again before it is taken as
/// it is: with a tenth of a second between the questions, for 5 seconds.
pub const MAX_WAIT_ATTEMPTS: u32 = 50;

/// What follows the answer of a page to the question whether it is ready.
#[derive(Clone, Copy, Debug, PartialEq, Eq, Structural)]
pub enum Wait {
    /// The page is ready.
    Ready,
    /// The page is not ready and is taken as it is.
    TimedOut,
    /// The page is asked again; this many questions went before.
    Again(u32),
}

/// What follows the answer `ready` of a page that was asked `attempts` times
/// before.
pub fn wait_step(ready: bool, attempts: u32) -> (r: Wait)
    ensures
        r == (if ready {
            Wait::Ready
        } else if attempts >= MAX_WAIT_ATTEMPTS {
            Wait::TimedOut
        } else {
            Wait::Again((attempts + 1) as u32)
        }),
{
    if ready {
        Wait::Ready
    } else if attempts >= MAX_WAIT_ATTEMPTS {
        Wait::TimedOut
    } else {
        Wait::Again(attempts + 1)
    }
}

} // verus!
