use rasa::measurements::Measurement;
use rasa::measurements::MeasurementWindow;

#[test]
fn empty_measurements() {
    let w = MeasurementWindow::new_with_look_behind(123, 0);
    assert_eq!(w.values.len(), 0);
    assert_eq!(w.look_behind, 123);
}

#[test]
fn appends_one_value() {
    let mut w = MeasurementWindow::new_with_look_behind(100, 1);

    w.add(0, Measurement::new(10, 20));
    assert_eq!(w.values[0], vec![Measurement::new(10, 20)]);
}

#[test]
fn clears_on_out_of_order() {
    let mut w = MeasurementWindow::new_with_look_behind(100, 1);

    w.add(0, Measurement::new(10, 20));
    w.add(0, Measurement::new(20, 30));
    w.add(0, Measurement::new(19, 100));
    assert_eq!(w.values[0], vec![Measurement::new(19, 100)]);
}

#[test]
fn appends_several_values() {
    let mut w = MeasurementWindow::new_with_look_behind(100, 1);

    for x in 1..=20i64 {
        w.add(0, Measurement::new(x * 10, x));
    }

    assert_eq!(
        w.values[0],
        vec![
            Measurement::new(100, 10),
            Measurement::new(110, 11),
            Measurement::new(120, 12),
            Measurement::new(130, 13),
            Measurement::new(140, 14),
            Measurement::new(150, 15),
            Measurement::new(160, 16),
            Measurement::new(170, 17),
            Measurement::new(180, 18),
            Measurement::new(190, 19),
            Measurement::new(200, 20),
        ]
    );
}

#[test]
fn zero_look_behind_keeps_latest_only() {
    let mut w = MeasurementWindow::new_with_look_behind(0, 1);
    w.add(0, Measurement::new(10, 1));
    w.add(0, Measurement::new(20, 2));
    assert_eq!(w.values[0], vec![Measurement::new(20, 2)]);
}

#[test]
fn out_of_range_channel_is_a_no_op() {
    let mut w = MeasurementWindow::new_with_look_behind(100, 2);
    w.add(5, Measurement::new(10, 20));
    assert_eq!(w.values[0], vec![]);
    assert_eq!(w.values[1], vec![]);
}

#[test]
fn plot_values_snapshots_one_channel() {
    let mut w = MeasurementWindow::new_with_look_behind(100, 2);
    w.add(1, Measurement::new(10, 20));
    w.add(1, Measurement::new(15, 25));
    let snap = w.plot_values(1);
    assert_eq!(snap, vec![Measurement::new(10, 20), Measurement::new(15, 25)]);
    assert_eq!(w.plot_values(0), vec![]);
}

#[test]
fn update_rect_replaces_overlay() {
    let mut w = MeasurementWindow::new_with_look_behind(100, 1);
    let rect = vec![
        Measurement::new(20, 5),
        Measurement::new(20, 1),
        Measurement::new(10, 1),
        Measurement::new(10, 5),
    ];
    w.update_rect(rect.clone());
    assert_eq!(w.rectpoints, rect);
}
