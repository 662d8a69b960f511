//! A weighted, bidirectional road graph built from geospatial point and way
//! records, with reduction to its largest connected component.

pub mod geom;
pub mod graph;
pub mod reach;
pub mod reduce;
pub mod speed;

pub use geom::Node;
pub use geom::segment_cost;
pub use graph::RoadNetwork;
pub use graph::Way;
pub use speed::speed_calc;
