//! Scenario pages and the index page, checked against known pages.

use quasar_report::report::{fenced, fn_line, render_index, render_scenario, TransactionRenders};

fn join(parts: &[&str]) -> String {
    let mut s = String::new();
    for p in parts {
        s.push_str(p);
    }
    s
}

/// A test file whose `fn <name>(` lines stand at the given 1-based lines.
fn source_with(fns: &[(usize, &str)]) -> String {
    let last = fns.iter().map(|(l, _)| *l).max().unwrap_or(0);
    let mut s = String::new();
    for line in 1..=last + 2 {
        match fns.iter().find(|(l, _)| *l == line) {
            Some((_, name)) => s.push_str(&format!("fn {}(engine: &mut QuasarBackend) -> Transaction {{\n", name)),
            None => s.push_str("    // filler\n"),
        }
    }
    s
}

fn token_transfer_renders(error: Option<&str>) -> TransactionRenders {
    TransactionRenders {
        error: error.map(|e| e.to_string()),
        cpi_tree: join(&[
        "CPI Tree (4,645 BPF CU / 1,400,000 budget):\n",
        "\u{2514}\u{2500}\u{2500} Transfer (4,645 / 1,400,000 CU) Token (no CPIs)\n",
    ]),
        sequence_diagram: join(&[
        "```mermaid\n",
        "sequenceDiagram\n",
        "    autonumber\n",
        "    participant Authority\n",
        "    participant Token\n",
        "    Authority ->> Token: Transfer (4645cu)\n",
        "```\n",
    ]),
        authority_graph: join(&[
        "```mermaid\n",
        "flowchart LR\n",
        "    classDef signer fill:#d4edda,stroke:#28a745;\n",
        "    classDef program fill:#cce5ff,stroke:#007bff;\n",
        "    classDef writable fill:#fff3cd,stroke:#ffc107;\n",
        "    Token[Token]:::program\n",
        "    Alice[(Alice)]:::writable\n",
        "    Bob[(Bob)]:::writable\n",
        "    Authority([Authority]):::signer\n",
        "    Authority -->|signs| Token\n",
        "    Token -->|writes| Alice\n",
        "    Token -->|writes| Bob\n",
        "```\n",
    ]),
        ownership_graph: join(&[
        "```mermaid\n",
        "flowchart LR\n",
        "    classDef owner fill:#cce5ff,stroke:#007bff;\n",
        "    classDef account fill:#fff3cd,stroke:#ffc107;\n",
        "    Token[Token]:::owner\n",
        "    Alice[(Alice)]:::account\n",
        "    Bob[(Bob)]:::account\n",
        "    Token -->|owns| Alice\n",
        "    Token -->|owns| Bob\n",
        "```\n",
    ]),
    }
}

fn token_transfer_page() -> String {
    join(&[
        "# Transfer SPL tokens\n",
        "\n",
        "**Intent.** Move 100 tokens from Alice to Bob; the owning authority signs.\n",
        "\n",
        "**Outcome.** The transaction succeeded.\n",
        "\n",
        "**Source.** [`tests/report.rs::token_transfer`](../tests/report.rs#L87)\n",
        "\n",
        "## Structured execution log\n",
        "\n",
        "```\n",
        "CPI Tree (4,645 BPF CU / 1,400,000 budget):\n",
        "\u{2514}\u{2500}\u{2500} Transfer (4,645 / 1,400,000 CU) Token (no CPIs)\n",
        "```\n",
        "\n",
        "## Sequence diagram\n",
        "\n",
        "```mermaid\n",
        "sequenceDiagram\n",
        "    autonumber\n",
        "    participant Authority\n",
        "    participant Token\n",
        "    Authority ->> Token: Transfer (4645cu)\n",
        "```\n",
        "\n",
        "## Authority graph\n",
        "\n",
        "Who signed for what; an `invoke_signed` PDA appears as its own authority.\n",
        "\n",
        "```mermaid\n",
        "flowchart LR\n",
        "    classDef signer fill:#d4edda,stroke:#28a745;\n",
        "    classDef program fill:#cce5ff,stroke:#007bff;\n",
        "    classDef writable fill:#fff3cd,stroke:#ffc107;\n",
        "    Token[Token]:::program\n",
        "    Alice[(Alice)]:::writable\n",
        "    Bob[(Bob)]:::writable\n",
        "    Authority([Authority]):::signer\n",
        "    Authority -->|signs| Token\n",
        "    Token -->|writes| Alice\n",
        "    Token -->|writes| Bob\n",
        "```\n",
        "\n",
        "## Ownership graph\n",
        "\n",
        "Which program owns each account the transaction wrote.\n",
        "\n",
        "```mermaid\n",
        "flowchart LR\n",
        "    classDef owner fill:#cce5ff,stroke:#007bff;\n",
        "    classDef account fill:#fff3cd,stroke:#ffc107;\n",
        "    Token[Token]:::owner\n",
        "    Alice[(Alice)]:::account\n",
        "    Bob[(Bob)]:::account\n",
        "    Token -->|owns| Alice\n",
        "    Token -->|owns| Bob\n",
        "```\n",
    ])
}

fn rejects_renders(error: Option<&str>) -> TransactionRenders {
    TransactionRenders {
        error: error.map(|e| e.to_string()),
        cpi_tree: join(&[
        "CPI Tree (4,471 BPF CU / 1,400,000 budget):\n",
        "\u{2514}\u{2500}\u{2500} Transfer FAILED: custom program error: 0x4 (4,471 / 1,400,000 CU) Token (no CPIs)\n",
        "      >> log:  Error: owner does not match\n",
    ]),
        sequence_diagram: join(&[
        "```mermaid\n",
        "sequenceDiagram\n",
        "    autonumber\n",
        "    participant Mallory\n",
        "    participant Token\n",
        "    Mallory ->> Token: Transfer (4471cu)\n",
        "    rect rgb(255, 220, 220)\n",
        "    note over Token: \u{2717} custom program error: 0x4\n",
        "    end\n",
        "```\n",
    ]),
        authority_graph: join(&[
        "```mermaid\n",
        "flowchart LR\n",
        "    classDef signer fill:#d4edda,stroke:#28a745;\n",
        "    classDef program fill:#cce5ff,stroke:#007bff;\n",
        "    classDef writable fill:#fff3cd,stroke:#ffc107;\n",
        "    Token[Token]:::program\n",
        "    Alice[(Alice)]:::writable\n",
        "    Bob[(Bob)]:::writable\n",
        "    Mallory([Mallory]):::signer\n",
        "    Mallory -->|signs| Token\n",
        "    Token -->|writes| Alice\n",
        "    Token -->|writes| Bob\n",
        "```\n",
    ]),
        ownership_graph: join(&[
        "```mermaid\n",
        "flowchart LR\n",
        "    classDef owner fill:#cce5ff,stroke:#007bff;\n",
        "    classDef account fill:#fff3cd,stroke:#ffc107;\n",
        "    Token[Token]:::owner\n",
        "    Alice[(Alice)]:::account\n",
        "    Bob[(Bob)]:::account\n",
        "    Token -->|owns| Alice\n",
        "    Token -->|owns| Bob\n",
        "```\n",
    ]),
    }
}

fn rejects_page() -> String {
    join(&[
        "# Reject a transfer signed by the wrong authority\n",
        "\n",
        "**Intent.** Mallory signs a transfer of Alice's tokens; the token program rejects it because Alice is owned by someone else.\n",
        "\n",
        "**Outcome.** The transaction failed: `custom program error: 0x4`.\n",
        "\n",
        "**Source.** [`tests/report.rs::token_transfer_rejects_wrong_authority`](../tests/report.rs#L97)\n",
        "\n",
        "## Structured execution log\n",
        "\n",
        "```\n",
        "CPI Tree (4,471 BPF CU / 1,400,000 budget):\n",
        "\u{2514}\u{2500}\u{2500} Transfer FAILED: custom program error: 0x4 (4,471 / 1,400,000 CU) Token (no CPIs)\n",
        "      >> log:  Error: owner does not match\n",
        "```\n",
        "\n",
        "## Sequence diagram\n",
        "\n",
        "```mermaid\n",
        "sequenceDiagram\n",
        "    autonumber\n",
        "    participant Mallory\n",
        "    participant Token\n",
        "    Mallory ->> Token: Transfer (4471cu)\n",
        "    rect rgb(255, 220, 220)\n",
        "    note over Token: \u{2717} custom program error: 0x4\n",
        "    end\n",
        "```\n",
        "\n",
        "## Authority graph\n",
        "\n",
        "Who signed for what; an `invoke_signed` PDA appears as its own authority.\n",
        "\n",
        "```mermaid\n",
        "flowchart LR\n",
        "    classDef signer fill:#d4edda,stroke:#28a745;\n",
        "    classDef program fill:#cce5ff,stroke:#007bff;\n",
        "    classDef writable fill:#fff3cd,stroke:#ffc107;\n",
        "    Token[Token]:::program\n",
        "    Alice[(Alice)]:::writable\n",
        "    Bob[(Bob)]:::writable\n",
        "    Mallory([Mallory]):::signer\n",
        "    Mallory -->|signs| Token\n",
        "    Token -->|writes| Alice\n",
        "    Token -->|writes| Bob\n",
        "```\n",
        "\n",
        "## Ownership graph\n",
        "\n",
        "Which program owns each account the transaction wrote.\n",
        "\n",
        "```mermaid\n",
        "flowchart LR\n",
        "    classDef owner fill:#cce5ff,stroke:#007bff;\n",
        "    classDef account fill:#fff3cd,stroke:#ffc107;\n",
        "    Token[Token]:::owner\n",
        "    Alice[(Alice)]:::account\n",
        "    Bob[(Bob)]:::account\n",
        "    Token -->|owns| Alice\n",
        "    Token -->|owns| Bob\n",
        "```\n",
    ])
}

fn ata_create_renders(error: Option<&str>) -> TransactionRenders {
    TransactionRenders {
        error: error.map(|e| e.to_string()),
        cpi_tree: join(&[
        "CPI Tree (21,745 BPF CU / 1,400,000 budget):\n",
        "\u{2514}\u{2500}\u{2500} (21,745 / 1,400,000 CU) AssociatedToken\n",
        "    \u{2502} >> log:  Create\n",
        "    \u{2502} >> log:  Initialize the associated token account\n",
        "    \u{251c}\u{2500}\u{2500} GetAccountDataSize (1,595 / 1,393,109 CU) Token\n",
        "    \u{2502}     >> log:  Program return: TokenkegQfeZyiNwAJbNbGKPFXCWuBvf9Ss623VQ5DA pQAAAAAAAAA=\n",
        "    \u{251c}\u{2500}\u{2500} CreateAccount System\n",
        "    \u{251c}\u{2500}\u{2500} InitializeImmutableOwner (1,405 / 1,386,604 CU) Token\n",
        "    \u{2502}     >> log:  Please upgrade to SPL Token 2022 for immutable owner support\n",
        "    \u{2514}\u{2500}\u{2500} InitializeAccount3 (4,214 / 1,382,773 CU) Token\n",
    ]),
        sequence_diagram: join(&[
        "```mermaid\n",
        "sequenceDiagram\n",
        "    autonumber\n",
        "    participant Payer\n",
        "    participant AssociatedToken\n",
        "    participant Token\n",
        "    participant System\n",
        "    Payer ->> AssociatedToken: Create (21745cu)\n",
        "    AssociatedToken ->> Token: GetAccountDataSize (1595cu)\n",
        "    AssociatedToken ->> System: CreateAccount\n",
        "    AssociatedToken ->> Token: InitializeImmutableOwner (1405cu)\n",
        "    AssociatedToken ->> Token: InitializeAccount3 (4214cu)\n",
        "```\n",
    ]),
        authority_graph: join(&[
        "```mermaid\n",
        "flowchart LR\n",
        "    classDef signer fill:#d4edda,stroke:#28a745;\n",
        "    classDef program fill:#cce5ff,stroke:#007bff;\n",
        "    classDef writable fill:#fff3cd,stroke:#ffc107;\n",
        "    AssociatedToken[AssociatedToken]:::program\n",
        "    Payer([Payer]):::signer\n",
        "    ATA([ATA]):::signer\n",
        "    Token[Token]:::program\n",
        "    System[System]:::program\n",
        "    Payer -->|signs| AssociatedToken\n",
        "    Payer -->|signs| System\n",
        "    ATA -->|signs| System\n",
        "    AssociatedToken -->|writes| ATA\n",
        "    Token -->|writes| ATA\n",
        "```\n",
    ]),
        ownership_graph: join(&[
        "```mermaid\n",
        "flowchart LR\n",
        "    classDef owner fill:#cce5ff,stroke:#007bff;\n",
        "    classDef account fill:#fff3cd,stroke:#ffc107;\n",
        "    System[System]:::owner\n",
        "    Payer[(Payer)]:::account\n",
        "    Token[Token]:::owner\n",
        "    ATA[(ATA)]:::account\n",
        "    System -->|owns| Payer\n",
        "    Token -->|owns| ATA\n",
        "```\n",
    ]),
    }
}

fn ata_create_page() -> String {
    join(&[
        "# Create an associated token account\n",
        "\n",
        "**Intent.** Create the payer's ATA; the program allocates the account through System and initializes it through Token, so the tree nests both CPIs.\n",
        "\n",
        "**Outcome.** The transaction succeeded.\n",
        "\n",
        "**Source.** [`tests/report.rs::ata_create`](../tests/report.rs#L109)\n",
        "\n",
        "## Structured execution log\n",
        "\n",
        "```\n",
        "CPI Tree (21,745 BPF CU / 1,400,000 budget):\n",
        "\u{2514}\u{2500}\u{2500} (21,745 / 1,400,000 CU) AssociatedToken\n",
        "    \u{2502} >> log:  Create\n",
        "    \u{2502} >> log:  Initialize the associated token account\n",
        "    \u{251c}\u{2500}\u{2500} GetAccountDataSize (1,595 / 1,393,109 CU) Token\n",
        "    \u{2502}     >> log:  Program return: TokenkegQfeZyiNwAJbNbGKPFXCWuBvf9Ss623VQ5DA pQAAAAAAAAA=\n",
        "    \u{251c}\u{2500}\u{2500} CreateAccount System\n",
        "    \u{251c}\u{2500}\u{2500} InitializeImmutableOwner (1,405 / 1,386,604 CU) Token\n",
        "    \u{2502}     >> log:  Please upgrade to SPL Token 2022 for immutable owner support\n",
        "    \u{2514}\u{2500}\u{2500} InitializeAccount3 (4,214 / 1,382,773 CU) Token\n",
        "```\n",
        "\n",
        "## Sequence diagram\n",
        "\n",
        "```mermaid\n",
        "sequenceDiagram\n",
        "    autonumber\n",
        "    participant Payer\n",
        "    participant AssociatedToken\n",
        "    participant Token\n",
        "    participant System\n",
        "    Payer ->> AssociatedToken: Create (21745cu)\n",
        "    AssociatedToken ->> Token: GetAccountDataSize (1595cu)\n",
        "    AssociatedToken ->> System: CreateAccount\n",
        "    AssociatedToken ->> Token: InitializeImmutableOwner (1405cu)\n",
        "    AssociatedToken ->> Token: InitializeAccount3 (4214cu)\n",
        "```\n",
        "\n",
        "## Authority graph\n",
        "\n",
        "Who signed for what; an `invoke_signed` PDA appears as its own authority.\n",
        "\n",
        "```mermaid\n",
        "flowchart LR\n",
        "    classDef signer fill:#d4edda,stroke:#28a745;\n",
        "    classDef program fill:#cce5ff,stroke:#007bff;\n",
        "    classDef writable fill:#fff3cd,stroke:#ffc107;\n",
        "    AssociatedToken[AssociatedToken]:::program\n",
        "    Payer([Payer]):::signer\n",
        "    ATA([ATA]):::signer\n",
        "    Token[Token]:::program\n",
        "    System[System]:::program\n",
        "    Payer -->|signs| AssociatedToken\n",
        "    Payer -->|signs| System\n",
        "    ATA -->|signs| System\n",
        "    AssociatedToken -->|writes| ATA\n",
        "    Token -->|writes| ATA\n",
        "```\n",
        "\n",
        "## Ownership graph\n",
        "\n",
        "Which program owns each account the transaction wrote.\n",
        "\n",
        "```mermaid\n",
        "flowchart LR\n",
        "    classDef owner fill:#cce5ff,stroke:#007bff;\n",
        "    classDef account fill:#fff3cd,stroke:#ffc107;\n",
        "    System[System]:::owner\n",
        "    Payer[(Payer)]:::account\n",
        "    Token[Token]:::owner\n",
        "    ATA[(ATA)]:::account\n",
        "    System -->|owns| Payer\n",
        "    Token -->|owns| ATA\n",
        "```\n",
    ])
}

fn report_source() -> String {
    source_with(&[
        (5, "fab_mint"),
        (87, "token_transfer"),
        (97, "token_transfer_rejects_wrong_authority"),
        (109, "ata_create"),
    ])
}

#[test]
fn token_transfer_page_matches_known_page() {
    let src = report_source();
    let md = render_scenario(
        "Transfer SPL tokens",
        "Move 100 tokens from Alice to Bob; the owning authority signs.",
        "tests/report.rs",
        "token_transfer",
        &token_transfer_renders(None),
        Some(&src),
    );
    assert_eq!(md, token_transfer_page());
}

#[test]
fn rejected_transfer_page_matches_known_page() {
    let src = report_source();
    let md = render_scenario(
        "Reject a transfer signed by the wrong authority",
        "Mallory signs a transfer of Alice's tokens; the token program rejects it because Alice is owned by someone else.",
        "tests/report.rs",
        "token_transfer_rejects_wrong_authority",
        &rejects_renders(Some("custom program error: 0x4")),
        Some(&src),
    );
    assert_eq!(md, rejects_page());
}

#[test]
fn ata_create_page_matches_known_page() {
    let src = report_source();
    let md = render_scenario(
        "Create an associated token account",
        "Create the payer's ATA; the program allocates the account through System and initializes it through Token, so the tree nests both CPIs.",
        "tests/report.rs",
        "ata_create",
        &ata_create_renders(None),
        Some(&src),
    );
    assert_eq!(md, ata_create_page());
}

#[test]
fn page_without_source_has_no_anchor() {
    let md = render_scenario("T", "I", "tests/report.rs", "token_transfer", &token_transfer_renders(None), None);
    assert!(md.contains("**Source.** [`tests/report.rs::token_transfer`](../tests/report.rs)\n\n"));
    assert!(md.starts_with("# T\n\n**Intent.** I\n\n**Outcome.** The transaction succeeded.\n\n"));
}

#[test]
fn page_for_missing_function_has_no_anchor() {
    let src = report_source();
    let md = render_scenario("T", "I", "tests/report.rs", "absent", &token_transfer_renders(Some("boom")), Some(&src));
    assert!(md.contains("](../tests/report.rs)\n\n"));
    assert!(md.contains("**Outcome.** The transaction failed: `boom`.\n\n"));
}

#[test]
fn index_page_matches_known_page() {
    let entries = vec![
        ("token-transfer.md".to_string(), "Transfer SPL tokens".to_string(), "succeeded".to_string()),
        (
            "token-transfer-rejects-wrong-authority.md".to_string(),
            "Reject a transfer signed by the wrong authority".to_string(),
            "rejected".to_string(),
        ),
        ("ata-create.md".to_string(), "Create an associated token account".to_string(), "succeeded".to_string()),
    ];
    assert_eq!(render_index(&entries), join(&[
        "# quasar-svm through TestSVM: an execution report\n",
        "\n",
        "Each scenario runs an SPL program on Blueshift's quasar-svm engine through the TestSVM quasar adapter, and renders what the engine witnessed: the structured execution log, a plain sequence diagram, and the authority and ownership graphs. Same report, a third engine.\n",
        "\n",
        "| Scenario | Outcome | Page |\n",
        "|---|---|---|\n",
        "| Transfer SPL tokens | succeeded | [token-transfer.md](token-transfer.md) |\n",
        "| Reject a transfer signed by the wrong authority | rejected | [token-transfer-rejects-wrong-authority.md](token-transfer-rejects-wrong-authority.md) |\n",
        "| Create an associated token account | succeeded | [ata-create.md](ata-create.md) |\n",
    ]));
}

#[test]
fn empty_index_has_only_the_table_head() {
    let md = render_index(&[]);
    assert!(md.ends_with("| Scenario | Outcome | Page |\n|---|---|---|\n"));
    assert!(md.starts_with("# quasar-svm through TestSVM: an execution report\n\n"));
}

#[test]
fn fence_trims_trailing_white_space_only() {
    assert_eq!(fenced("rust", "  fn a() {}\n\n \t"), "```rust\n  fn a() {}\n```\n");
    assert_eq!(fenced("", ""), "```\n\n```\n");
    assert_eq!(fenced("", "x\u{3000}\u{a0}\u{2029}"), "```\nx\n```\n");
    assert_eq!(fenced("", "x\u{200b}"), "```\nx\u{200b}\n```\n");
}

#[test]
fn fn_line_finds_the_first_defining_line() {
    let src = report_source();
    assert_eq!(fn_line(&src, "token_transfer"), Some(87));
    assert_eq!(fn_line(&src, "token_transfer_rejects_wrong_authority"), Some(97));
    assert_eq!(fn_line(&src, "fab_mint"), Some(5));
    assert_eq!(fn_line(&src, "absent"), None);
    assert_eq!(fn_line("", "a"), None);
}

#[test]
fn fn_line_follows_str_lines() {
    assert_eq!(fn_line("x\r\nfn a(\r\n", "a"), Some(2));
    assert_eq!(fn_line("\n\n\nfn b()", "b"), Some(4));
    assert_eq!(fn_line("fn a\n(", "a"), None);
    assert_eq!(fn_line("a\rfn c(", "c"), Some(1));
    assert_eq!(fn_line("fn c(fn c(\nfn c(", "c"), Some(1));
}
