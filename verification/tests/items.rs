use wordcast::{relative_row, Align, DocumentId};

#[test]
fn default_document_id_is_one() {
    assert_eq!(DocumentId::default().get(), 1);
    assert_eq!(DocumentId::default(), DocumentId::new(1));
}

#[test]
fn document_ids_order_by_value() {
    assert!(DocumentId::new(2) < DocumentId::new(7));
    assert_eq!(DocumentId::new(7).get(), 7);
}

#[test]
fn relative_row_per_alignment() {
    assert_eq!(relative_row(10, Align::Top), 0);
    assert_eq!(relative_row(10, Align::Center), 4);
    assert_eq!(relative_row(10, Align::Bottom), 9);
}

#[test]
fn relative_row_of_tiny_viewports() {
    assert_eq!(relative_row(0, Align::Bottom), 0);
    assert_eq!(relative_row(0, Align::Center), 0);
    assert_eq!(relative_row(1, Align::Bottom), 0);
    assert_eq!(relative_row(2, Align::Center), 0);
    assert_eq!(relative_row(3, Align::Center), 1);
}
