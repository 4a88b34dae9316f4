//! Areas whose subsidence is known from other studies.
use vstd::prelude::*;

verus! {

/// An area with a known subsidence.
pub struct ValidationSite {
    pub name: &'static str,
    pub description: &'static str,
    /// West, south, east and north edge, in hundredths of a degree.
    pub bbox_centidegrees: [i32; 4],
    pub date_range: &'static str,
    pub expected_subsidence_mm: u32,
}

pub const LA_NAME: &'static str = "LA Metro Purple Line Extension";

pub const LA_DESCRIPTION: &'static str =
    "Twin tunnel boring through downtown Los Angeles. InSAR studies detected up to 15mm subsidence along Wilshire Blvd corridor.";

pub const LA_DATES: &'static str = "2019-01-01/2022-12-31";

pub const LONDON_NAME: &'static str = "London Crossrail - East London";

pub const LONDON_DESCRIPTION: &'static str =
    "Lee Tunnel and Crossrail construction in East London. Sentinel-1 PS-InSAR detected subsidence patterns including a drift-filled hollow discovered during tunnelling.";

pub const LONDON_DATES: &'static str = "2015-01-01/2019-12-31";

pub const DANGJIN_NAME: &'static str = "Dangjin Tunneling, South Korea";

pub const DANGJIN_DESCRIPTION: &'static str =
    "TBM tunneling in reclaimed land near Dangjin. PS-InSAR measured maximum subsidence rate exceeding 40mm/yr with cumulative subsidence of ~200mm.";

pub const DANGJIN_DATES: &'static str = "2018-01-01/2021-12-31";

impl ValidationSite {
    /// Whether the site is the one with these properties.
    pub open spec fn consists_of(
        self,
        name: Seq<char>,
        description: Seq<char>,
        bbox_centidegrees: Seq<i32>,
        date_range: Seq<char>,
        expected_subsidence_mm: int,
    ) -> bool {
        &&& self.name@ == name
        &&& self.description@ == description
        &&& self.bbox_centidegrees@ == bbox_centidegrees
        &&& self.date_range@ == date_range
        &&& self.expected_subsidence_mm == expected_subsidence_mm
    }
}

/// The known validation sites.
pub fn known_sites() -> (sites: Vec<ValidationSite>)
    ensures
        sites.len() == 3,
        sites@[0].consists_of(
            LA_NAME@,
            LA_DESCRIPTION@,
            seq![-11838i32, 3405i32, -11826i32, 3407i32],
            LA_DATES@,
            15,
        ),
        sites@[1].consists_of(
            LONDON_NAME@,
            LONDON_DESCRIPTION@,
            seq![-2i32, 5148i32, 12i32, 5153i32],
            LONDON_DATES@,
            20,
        ),
        sites@[2].consists_of(
            DANGJIN_NAME@,
            DANGJIN_DESCRIPTION@,
            seq![12655i32, 3695i32, 12672i32, 3702i32],
            DANGJIN_DATES@,
            200,
        ),
{
    let mut sites: Vec<ValidationSite> = Vec::new();
    sites.push(
        ValidationSite {
            name: LA_NAME,
            description: LA_DESCRIPTION,
            bbox_centidegrees: [-11838, 3405, -11826, 3407],
            date_range: LA_DATES,
            expected_subsidence_mm: 15,
        },
    );
    sites.push(
        ValidationSite {
            name: LONDON_NAME,
            description: LONDON_DESCRIPTION,
            bbox_centidegrees: [-2, 5148, 12, 5153],
            date_range: LONDON_DATES,
            expected_subsidence_mm: 20,
        },
    );
    sites.push(
        ValidationSite {
            name: DANGJIN_NAME,
            description: DANGJIN_DESCRIPTION,
            bbox_centidegrees: [12655, 3695, 12672, 3702],
            date_range: DANGJIN_DATES,
            expected_subsidence_mm: 200,
        },
    );
    sites
}

} // verus!
