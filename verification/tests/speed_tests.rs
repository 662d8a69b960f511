use road_network::speed_calc;

#[test]
fn classification_table_values() {
    assert_eq!(speed_calc("motorway"), Some(110));
    assert_eq!(speed_calc("trunk"), Some(110));
    assert_eq!(speed_calc("primary"), Some(70));
    assert_eq!(speed_calc("secondary"), Some(60));
    assert_eq!(speed_calc("tertiary"), Some(50));
    assert_eq!(speed_calc("motorway_link"), Some(50));
    assert_eq!(speed_calc("trunk_link"), Some(50));
    assert_eq!(speed_calc("primary_link"), Some(50));
    assert_eq!(speed_calc("secondary_link"), Some(50));
    assert_eq!(speed_calc("road"), Some(40));
    assert_eq!(speed_calc("unclassified"), Some(40));
    assert_eq!(speed_calc("residential"), Some(30));
    assert_eq!(speed_calc("unsurfaced"), Some(30));
    assert_eq!(speed_calc("living_street"), Some(10));
    assert_eq!(speed_calc("service"), Some(5));
}

#[test]
fn classification_table_rejects_unknown_labels() {
    assert_eq!(speed_calc("footway"), None);
    assert_eq!(speed_calc("cycleway"), None);
    assert_eq!(speed_calc(""), None);
    assert_eq!(speed_calc("Motorway"), None);
    assert_eq!(speed_calc("residential "), None);
}
