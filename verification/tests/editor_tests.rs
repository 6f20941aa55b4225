use strokefit::editor::{GuiModeType, RenderTarget, SelectGuiMode, StateDataLoc, StateDataType,
    StateOperation, HISTORY_LIMIT};

#[test]
fn render_target_from_char() {
    assert_eq!(RenderTarget::from_char('s'), Some(RenderTarget::SingleImage));
    assert_eq!(RenderTarget::from_char('m'), Some(RenderTarget::Mp4));
    assert_eq!(RenderTarget::from_char('x'), None);
    assert_eq!(RenderTarget::from_char(' '), None);
}

#[test]
fn render_target_kind() {
    assert!(RenderTarget::SingleImage.is_single_image());
    assert!(!RenderTarget::Mp4.is_single_image());
}

#[test]
fn select_mode_constructs() {
    let _ = SelectGuiMode::new();
}

#[test]
fn state_data_types_compare() {
    assert_eq!(StateDataType::Curve, StateDataType::Curve);
    assert_ne!(StateDataType::Curve, StateDataType::Line);
    let loc = StateDataLoc(StateDataType::Polygon, 4);
    assert_eq!(loc, StateDataLoc(StateDataType::Polygon, 4));
    let op = StateOperation::Add(loc);
    assert_eq!(op, StateOperation::Add(StateDataLoc(StateDataType::Polygon, 4)));
    assert_eq!(HISTORY_LIMIT, 45);
    assert_ne!(GuiModeType::Select, GuiModeType::Freedraw);
}
