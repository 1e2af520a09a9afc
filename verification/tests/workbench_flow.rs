use gaffrie::entropy_plot::EntropyPlot;
use gaffrie::format_explorer::FormatExplorer;
use gaffrie::frequency_image::FrequencyImage;
use gaffrie::hex_viewer::HexViewer;
use gaffrie::string_finder::StringFinder;
use gaffrie::workbench::{SharedBuffer, Tool, Workbench};
use gaffrie::Event;

#[test]
fn shared_buffer_replacement_is_wholesale() {
    let mut buffer = SharedBuffer::new();
    assert_eq!(buffer.len(), 0);
    buffer.replace(vec![1, 2, 3]);
    assert_eq!(buffer.len(), 3);
    assert_eq!(buffer.read(), &[1, 2, 3]);
    buffer.replace(vec![9]);
    assert_eq!(buffer.read(), &[9]);
}

#[test]
fn replacing_the_file_recomputes_every_tool_in_registration_order() {
    let mut workbench = Workbench::new();
    let empty: &[u8] = &[];
    workbench.add_tool(Tool::Strings(StringFinder::new(empty)));
    workbench.add_tool(Tool::Entropy(EntropyPlot::new(empty)));
    workbench.add_tool(Tool::Frequency(FrequencyImage::new(empty)));
    workbench.add_tool(Tool::Hex(HexViewer::new(empty)));
    workbench.add_tool(Tool::Format(FormatExplorer::new(empty)));
    assert_eq!(workbench.tools.len(), 5);

    let data = b"ping!\x00pong!".to_vec();
    workbench.replace_file(data);

    match &workbench.tools[0] {
        Tool::Strings(finder) => {
            assert_eq!(finder.strings.len(), 2);
            assert_eq!(finder.strings[0].string, "ping!");
            assert_eq!(finder.strings[1].string, "pong!");
        }
        _ => unreachable!(),
    }
    match &workbench.tools[1] {
        Tool::Entropy(plot) => {
            assert_eq!(plot.chunks.len(), 11);
        }
        _ => unreachable!(),
    }
    match &workbench.tools[2] {
        Tool::Frequency(image) => {
            let total: u64 = image.counts.iter().sum();
            assert_eq!(total, 10);
        }
        _ => unreachable!(),
    }
    match &workbench.tools[4] {
        Tool::Format(explorer) => {
            assert!(explorer.parsed.is_err());
        }
        _ => unreachable!(),
    }
}

#[test]
fn tool_titles_dispatch_to_the_analyzers() {
    let empty: &[u8] = &[];
    let tools = vec![
        Tool::Strings(StringFinder::new(empty)),
        Tool::Entropy(EntropyPlot::new(empty)),
        Tool::Frequency(FrequencyImage::new(empty)),
        Tool::Hex(HexViewer::new(empty)),
        Tool::Format(FormatExplorer::new(empty)),
    ];
    let titles: Vec<String> = tools.iter().map(|t| t.title()).collect();
    assert_eq!(titles.len(), 5);
    assert_eq!(titles[0], "Strings");
    assert_eq!(titles[1], "Entropy Plot");
    assert_eq!(titles[2], "Byte pairs frequency");
    assert_eq!(titles[3], "Hex Viewer");
    assert_eq!(titles[4], "Format Explorer");
}

#[test]
fn notifying_without_a_replacement_recomputes_against_the_same_bytes() {
    let mut workbench = Workbench::new();
    workbench.replace_file(b"hello world".to_vec());
    let finder = StringFinder::new(workbench.current_file.read());
    workbench.add_tool(Tool::Strings(finder));
    workbench.notify_tools(Event::FileChanged);
    match &workbench.tools[0] {
        Tool::Strings(finder) => {
            assert_eq!(finder.strings.len(), 1);
            assert_eq!(finder.strings[0].string, "hello world");
        }
        _ => unreachable!(),
    }
}
