use zoneq::format_record;
use zoneq::zone::{Step, Zone, ZoneParser};
use zoneq::Error;

/// Reads `start` from `files`, handing the parser each `$INCLUDE`d file's
/// text by its name.
fn read(files: &[(&str, &str)], start: &str) -> Result<Zone, Error> {
    let text = |name: &str| {
        files
            .iter()
            .find(|(n, _)| *n == name)
            .map(|(_, t)| t.to_string())
            .unwrap_or_else(|| panic!("no file {name}"))
    };
    let mut parser = ZoneParser::new(&text(start), start, None)?;
    loop {
        match parser.step()? {
            Step::Continue => {}
            Step::Done => return Ok(parser.finish()),
            Step::Include(request) => {
                parser.enter_file(&request.file, &text(&request.file))?;
            }
        }
    }
}

fn lines(zone: &Zone) -> Vec<String> {
    zone.records.iter().map(format_record).collect()
}

#[test]
fn include_does_not_leak_state() {
    let files = [
        ("child.zone", "$TTL 5\n$ORIGIN elsewhere.\nhost A 192.0.2.9\n"),
        (
            "parent.zone",
            "$ORIGIN example.com.\n$TTL 60\n$INCLUDE child.zone\n$INCLUDE child.zone sub\nwww A 192.0.2.1\n",
        ),
    ];
    let zone = read(&files, "parent.zone").unwrap();
    assert_eq!(
        lines(&zone),
        [
            "host.elsewhere.\t5\tIN\tA\t192.0.2.9",
            "host.elsewhere.\t5\tIN\tA\t192.0.2.9",
            "www.example.com.\t60\tIN\tA\t192.0.2.1",
        ]
    );
    assert_eq!(zone.origin.unwrap().as_str(), "example.com.");
}

#[test]
fn include_takes_an_origin() {
    let files = [
        ("child.zone", "@ 60 A 192.0.2.9\n"),
        ("parent.zone", "$ORIGIN example.com.\n$INCLUDE child.zone sub\n"),
    ];
    let zone = read(&files, "parent.zone").unwrap();
    assert_eq!(zone.records[0].name.as_str(), "sub.example.com.");
}

#[test]
fn include_loops_are_caught() {
    let files = [("loop.zone", "$INCLUDE loop.zone\n")];
    let err = read(&files, "loop.zone").unwrap_err();
    let message = err.to_string();
    assert!(message.contains("nested more than 16 deep"), "{message}");
}
