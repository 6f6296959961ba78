//! Integration test: the examples of the DSL cheat sheet parse cleanly.

use diamem::dsl::dsl_to_mermaid;

/// The seven examples of the DSL cheat sheet, one after the other.
const EXAMPLES: &str = "\
[Frontend] { WebApp, MobileApp, CLI }
[Backend] { API, AuthService, Worker }
[Storage] { Postgres, Redis, S3 }

WebApp -> API
MobileApp -> API
CLI -> API
API -(queries)> Postgres
API -(caches)> Redis
Worker -(uploads)> S3

User > Browser : Opens app
Browser > API : POST /login
API > AuthService : Validate credentials
AuthService > DB : SELECT user
DB > AuthService : User record
AuthService > API : JWT token
API > Browser : 200 OK + token
Browser > User : Dashboard loaded

@ Morning: Wake, Coffee, Review
@ DeepWork: Code, Design, Write
@ WindDown: Walk, Read, Journal

Wake -> Coffee -> Review -> Code -> Design -> Write -> Walk -> Read -> Journal

@ Phase1: Scaffold, Parser, BasicUI
@ Phase2: SVGRender, LivePreview
@ Phase3: PNGExport, ShotextLink
@ Phase4: Themes, Shortcuts, Polish

Scaffold -> Parser -> BasicUI -> SVGRender -> LivePreview
LivePreview -> PNGExport -> ShotextLink -> Themes -> Shortcuts -> Polish

@ Gateway: APIGateway
@ Services: UserSvc, OrderSvc, PaymentSvc
@ Infra: Kafka, Postgres, Redis

APIGateway -(REST)> UserSvc
APIGateway -(REST)> OrderSvc
OrderSvc -(event)> Kafka
Kafka -(consumes)> PaymentSvc
UserSvc -[reads]-> Postgres
PaymentSvc -(caches)> Redis

# Checkout sequence
User > APIGateway : POST /checkout
APIGateway > OrderSvc : Create order
OrderSvc > Kafka : OrderCreated event
Kafka > PaymentSvc : Process payment
PaymentSvc > OrderSvc : PaymentConfirmed
OrderSvc > APIGateway : Order complete
APIGateway > User : 200 OK

# A mindmap: block switches to Mermaid's mindmap renderer.
# Depth is expressed by dash count: - = level 1, -- = level 2, etc.

mindmap: diamem
- DSL
-- Parser
-- Grammar
-- Syntax
- Rendering
-- Mermaid
-- SVG
-- PNG Export
- UI
-- Editor
-- Preview
-- Themes
- Integration
-- Shotext
-- OCR Footer

mindmap: My Day
- Morning
-- Wake up
-- Coffee
-- Review tasks
- Deep Work
-- Code
-- Design
-- Write docs
- Wind Down
-- Walk
-- Read
-- Journal
";

#[test]
fn examples_file_parses_without_errors() {
    let result = dsl_to_mermaid(EXAMPLES);
    assert!(
        result.is_ok(),
        "examples.dsl failed to parse:\n{}",
        result.unwrap_err()
    );
}

#[test]
fn examples_file_produces_nonempty_mermaid() {
    let mermaid = dsl_to_mermaid(EXAMPLES).unwrap();
    // Should have the header + many output lines
    assert!(
        mermaid.lines().count() > 20,
        "Expected substantial output from examples"
    );
}
