use dryer_core::config::{Config, LanguageFilter, Threshold};
use dryer_core::files::discover_files;
use dryer_core::matcher::find_duplicates;
use dryer_core::output::{format_sarif, format_text};
use dryer_core::report::{DuplicateCandidate, Report};

const RENAMED_LEFT: &str = r#"pub fn invoice_summary(orders: &[Order]) -> Summary {
    let paid = orders.iter().filter(|order| order.paid).collect::<Vec<_>>();
    let domestic = paid.iter().filter(|order| order.country == "US").collect::<Vec<_>>();
    let total = domestic.iter().map(|order| order.amount).sum::<i64>();
    let flagged = domestic.iter().filter(|order| order.flagged).count();
    Summary { total, flagged }
}
"#;

const RENAMED_RIGHT: &str = r#"pub fn receipt_summary(rows: &[Receipt]) -> Totals {
    let closed = rows.iter().filter(|row| row.closed).collect::<Vec<_>>();
    let local = closed.iter().filter(|row| row.region == "NA").collect::<Vec<_>>();
    let amount = local.iter().map(|row| row.value).sum::<i64>();
    let held = local.iter().filter(|row| row.held).count();
    Totals { amount, held }
}
"#;

const IMPL_LEFT: &str = r#"impl InvoiceReport {
    pub fn render(&self, rows: &[Invoice]) -> Vec<Line> {
        let visible = rows.iter().filter(|row| row.visible).collect::<Vec<_>>();
        let sorted = visible.iter().map(|row| row.to_line()).collect::<Vec<_>>();
        let tagged = sorted.into_iter().filter(|line| line.total > 0).collect::<Vec<_>>();
        tagged
    }
}
"#;

const IMPL_RIGHT: &str = r#"impl ReceiptReport {
    pub fn draw(&self, items: &[Receipt]) -> Vec<Entry> {
        let shown = items.iter().filter(|item| item.shown).collect::<Vec<_>>();
        let ordered = shown.iter().map(|item| item.to_entry()).collect::<Vec<_>>();
        let kept = ordered.into_iter().filter(|entry| entry.amount > 0).collect::<Vec<_>>();
        kept
    }
}
"#;

const TRAIT_LEFT: &str = r#"pub trait InvoiceFormatter {
    fn format_invoice(&self, invoice: &Invoice) -> Vec<Cell> {
        let lines = invoice.lines.iter().filter(|line| line.visible).collect::<Vec<_>>();
        let cells = lines.iter().map(|line| line.to_cell()).collect::<Vec<_>>();
        let active = cells.into_iter().filter(|cell| cell.enabled).collect::<Vec<_>>();
        active
    }
}
"#;

const TRAIT_RIGHT: &str = r#"pub trait ReceiptFormatter {
    fn format_receipt(&self, receipt: &Receipt) -> Vec<Item> {
        let rows = receipt.rows.iter().filter(|row| row.shown).collect::<Vec<_>>();
        let items = rows.iter().map(|row| row.to_item()).collect::<Vec<_>>();
        let kept = items.into_iter().filter(|item| item.active).collect::<Vec<_>>();
        kept
    }
}
"#;

const NEGATIVE_LEFT: &str = r#"pub fn classify_invoice(invoice: &Invoice) -> State {
    if invoice.cancelled {
        return State::Cancelled;
    }
    if invoice.paid && invoice.total > 0 {
        return State::Closed;
    }
    State::Open
}
"#;

const NEGATIVE_RIGHT: &str = r#"pub fn classify_receipt(receipt: &Receipt) -> State {
    match receipt.status {
        Status::Void => State::Cancelled,
        Status::Settled if receipt.amount > 0 => State::Closed,
        Status::Settled => State::Open,
        Status::Pending => State::Open,
    }
}
"#;

const TINY_GETTERS_RS: &str = r#"impl Order {
    pub fn id(&self) -> u64 {
        self.id
    }
    pub fn total(&self) -> i64 {
        self.total
    }
}

impl Invoice {
    pub fn id(&self) -> u64 {
        self.id
    }
    pub fn total(&self) -> i64 {
        self.total
    }
}
"#;

const MIXED_LEFT_RS: &str = r#"pub fn build_order_rows(orders: &[Order]) -> Vec<Row> {
    let visible = orders.iter().filter(|order| order.visible).collect::<Vec<_>>();
    let rows = visible.iter().map(|order| order.to_row()).collect::<Vec<_>>();
    let kept = rows.into_iter().filter(|row| row.total > 0).collect::<Vec<_>>();
    kept
}
"#;

const MIXED_RIGHT_RS: &str = r#"pub fn build_invoice_rows(invoices: &[Invoice]) -> Vec<Line> {
    let shown = invoices.iter().filter(|invoice| invoice.shown).collect::<Vec<_>>();
    let lines = shown.iter().map(|invoice| invoice.to_line()).collect::<Vec<_>>();
    let active = lines.into_iter().filter(|line| line.amount > 0).collect::<Vec<_>>();
    active
}
"#;

const TS_ORDERS: &str = r#"export function buildOrderRows(orders: Order[]): Row[] {
  const visible = orders.filter((order) => order.visible);
  const rows = visible.map((order) => toRow(order));
  const kept = rows.filter((row) => row.total > 0);
  const sorted = kept.sort((a, b) => a.total - b.total);
  return sorted;
}
"#;

const TS_INVOICES: &str = r#"export function buildInvoiceRows(invoices: Invoice[]): Line[] {
  const shown = invoices.filter((invoice) => invoice.shown);
  const lines = shown.map((invoice) => toLine(invoice));
  const active = lines.filter((line) => line.amount > 0);
  const ordered = active.sort((x, y) => x.amount - y.amount);
  return ordered;
}
"#;

const TS_ARROW_LEFT: &str = r#"export const summarizeOrders = (orders: Order[]): Summary => {
  const paid = orders.filter((order) => order.paid);
  const total = paid.reduce((sum, order) => sum + order.amount, 0);
  const flagged = paid.filter((order) => order.flagged).length;
  const label = total > 1000 ? "large" : "small";
  return { total, flagged, label };
};
"#;

const TS_ARROW_RIGHT: &str = r#"export const summarizeInvoices = (invoices: Invoice[]): Totals => {
  const closed = invoices.filter((invoice) => invoice.closed);
  const amount = closed.reduce((acc, invoice) => acc + invoice.value, 0);
  const held = closed.filter((invoice) => invoice.held).length;
  const size = amount > 5000 ? "big" : "little";
  return { amount, held, size };
};
"#;

const TS_OBJECT_LEFT: &str = r#"export const orderView = {
  buildRows(orders: Order[]): Row[] {
    const visible = orders.filter((order) => order.visible);
    const rows = visible.map((order) => toRow(order));
    const kept = rows.filter((row) => row.total > 0);
    return kept;
  },
};
"#;

const TS_OBJECT_RIGHT: &str = r#"export const invoiceView = {
  buildLines(invoices: Invoice[]): Line[] {
    const shown = invoices.filter((invoice) => invoice.shown);
    const lines = shown.map((invoice) => toLine(invoice));
    const active = lines.filter((line) => line.amount > 0);
    return active;
  },
};
"#;

const TS_CLASS_LEFT: &str = r#"export class OrderTable {
  buildRows(orders: Order[]): Row[] {
    const visible = orders.filter((order) => order.visible);
    const rows = visible.map((order) => this.toRow(order));
    const kept = rows.filter((row) => row.total > 0);
    return kept;
  }
}
"#;

const TS_CLASS_RIGHT: &str = r#"export class InvoiceTable {
  buildLines(invoices: Invoice[]): Line[] {
    const shown = invoices.filter((invoice) => invoice.shown);
    const lines = shown.map((invoice) => this.toLine(invoice));
    const active = lines.filter((line) => line.amount > 0);
    return active;
  }
}
"#;

const TSX_LEFT: &str = r#"export function OrderPanel({ orders }: Props) {
  const visible = orders.filter((order) => order.visible);
  return (
    <section className="panel">
      <h2>{visible.length}</h2>
      <ul>{visible.map((order) => <li key={order.id}>{order.name}</li>)}</ul>
    </section>
  );
}
"#;

const TSX_RIGHT: &str = r#"export function InvoicePanel({ invoices }: Props) {
  const shown = invoices.filter((invoice) => invoice.shown);
  return (
    <section className="card">
      <h2>{shown.length}</h2>
      <ul>{shown.map((invoice) => <li key={invoice.id}>{invoice.title}</li>)}</ul>
    </section>
  );
}
"#;

const TS_NEGATIVE_LEFT: &str = r#"export function classifyInvoice(invoice: Invoice): State {
  if (invoice.cancelled) {
    return "cancelled";
  }
  if (invoice.paid && invoice.total > 0) {
    return "closed";
  }
  return "open";
}
"#;

const TS_NEGATIVE_RIGHT: &str = r#"export function classifyReceipt(receipt: Receipt): State {
  switch (receipt.status) {
    case "void":
      return "cancelled";
    case "settled":
      return receipt.amount > 0 ? "closed" : "open";
    default:
      return "open";
  }
}
"#;

const TS_TINY_GETTERS: &str = r#"export class Order {
  get id(): number {
    return this.orderId;
  }
  get total(): number {
    return this.orderTotal;
  }
}

export class Invoice {
  get id(): number {
    return this.invoiceId;
  }
  get total(): number {
    return this.invoiceTotal;
  }
}
"#;

const DTS_LEFT: &str = r#"export declare function buildOrderRows(orders: Order[]): Row[];
export declare function buildInvoiceRows(invoices: Invoice[]): Line[];
"#;

fn fixture_config(language: LanguageFilter) -> Config {
    Config {
        paths: vec![String::from("fixture")],
        threshold: Threshold { numerator: 82, denominator: 100 },
        min_lines: 4,
        min_nodes: 20,
        language,
        ..Config::default()
    }
}

fn run_sources(sources: &[(&str, &str)], language: LanguageFilter) -> Report {
    let config = fixture_config(language);
    let found: Vec<String> = sources.iter().map(|(path, _)| path.to_string()).collect();
    let files = discover_files(&config, &found).expect("fixture files are selected");
    let texts: Vec<String> = files
        .iter()
        .map(|file| {
            sources
                .iter()
                .find(|(path, _)| *path == file.path.as_str())
                .map(|(_, text)| text.to_string())
                .expect("every selected file has a source")
        })
        .collect();
    find_duplicates(&config, &files, &texts).expect("fixture scan succeeds")
}

fn assert_pair_named(report: &Report, left: &str, right: &str) {
    assert!(!report.candidates.is_empty(), "{report:#?}");
    let found = report.candidates.iter().any(|candidate| {
        candidate.left.name.as_deref() == Some(left) && candidate.right.name.as_deref() == Some(right)
    });
    assert!(found, "{left} -> {right} not found in {report:#?}");
}

fn score_at_least_082(candidate: &DuplicateCandidate) -> bool {
    candidate.total_fingerprints > 0 && candidate.shared_fingerprints * 100 >= 82 * candidate.total_fingerprints
}

#[test]
fn rust_functions_match_after_renaming() {
    let report = run_sources(
        &[("fixtures/rust/renamed_function_duplicate/left.rs", RENAMED_LEFT), ("fixtures/rust/renamed_function_duplicate/right.rs", RENAMED_RIGHT)],
        LanguageFilter::Rust,
    );

    assert_pair_named(&report, "invoice_summary", "receipt_summary");
    assert!(score_at_least_082(&report.candidates[0]));
}

#[test]
fn rust_impl_methods_match_after_renaming() {
    let report = run_sources(
        &[("fixtures/rust/impl_method_duplicate/left.rs", IMPL_LEFT), ("fixtures/rust/impl_method_duplicate/right.rs", IMPL_RIGHT)],
        LanguageFilter::Rust,
    );

    assert_pair_named(&report, "render", "draw");
    assert!(score_at_least_082(&report.candidates[0]));
}

#[test]
fn rust_trait_default_methods_match_after_renaming() {
    let report = run_sources(
        &[
            ("fixtures/rust/trait_default_method_duplicate/left.rs", TRAIT_LEFT),
            ("fixtures/rust/trait_default_method_duplicate/right.rs", TRAIT_RIGHT),
        ],
        LanguageFilter::Rust,
    );

    assert_pair_named(&report, "format_invoice", "format_receipt");
    assert!(score_at_least_082(&report.candidates[0]));
}

#[test]
fn rust_different_control_flow_does_not_match() {
    let report = run_sources(
        &[
            ("fixtures/rust/negative_different_control_flow/left.rs", NEGATIVE_LEFT),
            ("fixtures/rust/negative_different_control_flow/right.rs", NEGATIVE_RIGHT),
        ],
        LanguageFilter::Rust,
    );

    assert!(report.candidates.is_empty(), "{report:#?}");
}

#[test]
fn rust_tiny_getters_are_filtered() {
    let report = run_sources(&[("fixtures/rust/tiny_getters_filtered/getters.rs", TINY_GETTERS_RS)], LanguageFilter::Rust);

    assert!(report.candidates.is_empty(), "{report:#?}");
}

#[test]
fn typescript_functions_match_after_renaming() {
    let report = run_sources(
        &[
            ("fixtures/typescript/renamed_function_duplicate/left.ts", TS_ORDERS),
            ("fixtures/typescript/renamed_function_duplicate/right.ts", TS_INVOICES),
        ],
        LanguageFilter::TypeScript,
    );

    assert_pair_named(&report, "buildOrderRows", "buildInvoiceRows");
    assert!(score_at_least_082(&report.candidates[0]));
}

#[test]
fn typescript_arrow_functions_match_after_renaming() {
    let report = run_sources(
        &[
            ("fixtures/typescript/arrow_function_duplicate/left.ts", TS_ARROW_LEFT),
            ("fixtures/typescript/arrow_function_duplicate/right.ts", TS_ARROW_RIGHT),
        ],
        LanguageFilter::TypeScript,
    );

    assert_pair_named(&report, "summarizeOrders", "summarizeInvoices");
    assert!(score_at_least_082(&report.candidates[0]));
}

#[test]
fn typescript_object_methods_match_after_renaming() {
    let report = run_sources(
        &[
            ("fixtures/typescript/object_method_duplicate/left.ts", TS_OBJECT_LEFT),
            ("fixtures/typescript/object_method_duplicate/right.ts", TS_OBJECT_RIGHT),
        ],
        LanguageFilter::TypeScript,
    );

    assert_pair_named(&report, "buildRows", "buildLines");
    assert!(score_at_least_082(&report.candidates[0]));
}

#[test]
fn typescript_class_methods_match_after_renaming() {
    let report = run_sources(
        &[
            ("fixtures/typescript/class_method_duplicate/left.ts", TS_CLASS_LEFT),
            ("fixtures/typescript/class_method_duplicate/right.ts", TS_CLASS_RIGHT),
        ],
        LanguageFilter::TypeScript,
    );

    assert_pair_named(&report, "buildRows", "buildLines");
    assert!(score_at_least_082(&report.candidates[0]));
}

#[test]
fn tsx_components_match_after_renaming() {
    let report = run_sources(
        &[
            ("fixtures/typescript/react_component_duplicate/left.tsx", TSX_LEFT),
            ("fixtures/typescript/react_component_duplicate/right.tsx", TSX_RIGHT),
        ],
        LanguageFilter::TypeScript,
    );

    assert_pair_named(&report, "OrderPanel", "InvoicePanel");
    assert!(score_at_least_082(&report.candidates[0]));
}

#[test]
fn typescript_different_control_flow_does_not_match() {
    let report = run_sources(
        &[
            ("fixtures/typescript/negative_different_control_flow/left.ts", TS_NEGATIVE_LEFT),
            ("fixtures/typescript/negative_different_control_flow/right.ts", TS_NEGATIVE_RIGHT),
        ],
        LanguageFilter::TypeScript,
    );

    assert!(report.candidates.is_empty(), "{report:#?}");
}

#[test]
fn typescript_tiny_getters_are_filtered() {
    let report = run_sources(&[("fixtures/typescript/tiny_getters_filtered/getters.ts", TS_TINY_GETTERS)], LanguageFilter::TypeScript);

    assert!(report.candidates.is_empty(), "{report:#?}");
}

#[test]
fn declaration_files_are_ignored_by_default() {
    let report = run_sources(
        &[("fixtures/typescript/dts_ignored/rows.d.ts", DTS_LEFT), ("fixtures/typescript/dts_ignored/more.d.ts", DTS_LEFT)],
        LanguageFilter::TypeScript,
    );

    assert!(report.candidates.is_empty(), "{report:#?}");
}

#[test]
fn generated_files_are_excluded_by_default() {
    let report = run_sources(
        &[
            ("fixtures/mixed/generated_excludes/target/debug/left.rs", RENAMED_LEFT),
            ("fixtures/mixed/generated_excludes/target/debug/right.rs", RENAMED_RIGHT),
            ("fixtures/mixed/generated_excludes/node_modules/pkg/orders.ts", TS_ORDERS),
            ("fixtures/mixed/generated_excludes/api.generated.ts", TS_INVOICES),
            ("fixtures/mixed/generated_excludes/client.gen.ts", TS_ORDERS),
        ],
        LanguageFilter::All,
    );

    assert!(report.candidates.is_empty(), "{report:#?}");
}

#[test]
fn mixed_scan_finds_rust_and_typescript_pairs() {
    let report = run_sources(
        &[
            ("fixtures/mixed/rust_and_typescript/left.rs", MIXED_LEFT_RS),
            ("fixtures/mixed/rust_and_typescript/right.rs", MIXED_RIGHT_RS),
            ("fixtures/mixed/rust_and_typescript/left.ts", TS_ORDERS),
            ("fixtures/mixed/rust_and_typescript/right.ts", TS_INVOICES),
        ],
        LanguageFilter::All,
    );

    assert_pair_named(&report, "build_order_rows", "build_invoice_rows");
    assert_pair_named(&report, "buildOrderRows", "buildInvoiceRows");
    assert!(report.candidates.iter().any(|candidate| candidate.language == "rust"));
    assert!(report.candidates.iter().any(|candidate| candidate.language == "typescript"));
}

#[test]
fn text_output_is_stable_for_no_candidates() {
    let report = run_sources(&[("fixtures/rust/tiny_getters_filtered/getters.rs", TINY_GETTERS_RS)], LanguageFilter::Rust);

    assert_eq!("No duplicate candidates found.\n", format_text(&report, &Vec::new()));
}

fn score_texts(report: &Report) -> Vec<String> {
    report
        .candidates
        .iter()
        .map(|c| format!("{:.2}", if c.total_fingerprints == 0 { 0.0 } else { c.shared_fingerprints as f64 / c.total_fingerprints as f64 }))
        .collect()
}

#[test]
fn sarif_output_uses_sarif_schema() {
    let report = run_sources(
        &[("fixtures/rust/renamed_function_duplicate/left.rs", RENAMED_LEFT), ("fixtures/rust/renamed_function_duplicate/right.rs", RENAMED_RIGHT)],
        LanguageFilter::Rust,
    );
    let sarif = format_sarif(&report, &score_texts(&report));
    let value: serde_json::Value = serde_json::from_str(&sarif).expect("valid json");

    assert_eq!(value["version"], serde_json::Value::String("2.1.0".to_string()));
    assert_eq!(value["runs"][0]["tool"]["driver"]["name"], serde_json::Value::String("dryer".to_string()));
    assert!(value["runs"][0]["results"].as_array().is_some_and(|items| !items.is_empty()));
}
