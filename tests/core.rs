use rg_core::ping;

type TestResult<T> = core::result::Result<T, Box<dyn std::error::Error>>;

#[test]
fn smoke_compiles() -> TestResult<()> {
    Ok(())
}

#[test]
fn ping_answers_ok() {
    assert_eq!(ping(), "ok");
}
