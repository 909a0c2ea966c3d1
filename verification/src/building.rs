//! The kinds of building, their footprints and the names of their pictures.

use vstd::prelude::*;
use vstd::string::StringExecFns;

verus! {

/// The square footprint of a component, by the number of cells on a side.
#[derive(Copy, Clone, Eq, PartialEq, Debug, Structural)]
pub enum PlotSize {
    X1Invisible,
    X2,
    X2Invisible,
    X3,
    X4,
}

impl PlotSize {
    /// The number of cells along one side of the footprint.
    pub open spec fn diameter(&self) -> u8 {
        match self {
            PlotSize::X1Invisible => 1,
            PlotSize::X2 => 2,
            PlotSize::X2Invisible => 2,
            PlotSize::X3 => 3,
            PlotSize::X4 => 4,
        }
    }

    /// The number of cells along one side of the footprint.
    #[verifier::when_used_as_spec(diameter)]
    pub fn cell_diameter(&self) -> (d: u8)
        ensures
            d == self.diameter(),
            1 <= d <= 4,
    {
        match self {
            PlotSize::X1Invisible => 1,
            PlotSize::X2 => 2,
            PlotSize::X2Invisible => 2,
            PlotSize::X3 => 3,
            PlotSize::X4 => 4,
        }
    }

    /// The picture of the ground under the footprint, for the sizes that
    /// show one.
    pub fn plot_file(&self) -> (file: Option<&'static str>)
        ensures
            file is Some <==> !(*self == PlotSize::X1Invisible || *self == PlotSize::X2Invisible),
            *self == PlotSize::X2 ==> file.unwrap()@ == "assets/plots/2x2.png"@,
            *self == PlotSize::X3 ==> file.unwrap()@ == "assets/plots/3x3.png"@,
            *self == PlotSize::X4 ==> file.unwrap()@ == "assets/plots/4x4.png"@,
    {
        match self {
            PlotSize::X1Invisible => None,
            PlotSize::X2 => Some("assets/plots/2x2.png"),
            PlotSize::X2Invisible => None,
            PlotSize::X3 => Some("assets/plots/3x3.png"),
            PlotSize::X4 => Some("assets/plots/4x4.png"),
        }
    }
}

/// Something that adds a suffix to the name of a building's picture.
pub trait DefenceState: Sized {
    /// The suffix, as a sequence of characters.
    spec fn suffix(self) -> Seq<char>;

    fn get_as_suffix(self) -> (s: &'static str)
        ensures
            s@ == self.suffix(),
    ;
}

impl DefenceState for &'static str {
    open spec fn suffix(self) -> Seq<char> {
        self@
    }

    fn get_as_suffix(self) -> (s: &'static str) {
        self
    }
}

/// How an archer tower is set up.
#[derive(Copy, Clone, Eq, PartialEq, Debug, Default, Structural)]
pub enum ArcherDefenceState {
    #[default]
    Regular,
}

impl DefenceState for ArcherDefenceState {
    open spec fn suffix(self) -> Seq<char> {
        match self {
            ArcherDefenceState::Regular => ""@,
        }
    }

    fn get_as_suffix(self) -> (s: &'static str) {
        match self {
            ArcherDefenceState::Regular => "",
        }
    }
}

/// How a cannon or a mortar is set up.
#[derive(Copy, Clone, Eq, PartialEq, Debug, Default, Structural)]
pub enum MissileDefenceState {
    #[default]
    Regular,
}

impl DefenceState for MissileDefenceState {
    open spec fn suffix(self) -> Seq<char> {
        match self {
            MissileDefenceState::Regular => ""@,
        }
    }

    fn get_as_suffix(self) -> (s: &'static str) {
        match self {
            MissileDefenceState::Regular => "",
        }
    }
}

/// What an eagle artillery is doing.
#[derive(Copy, Clone, Eq, PartialEq, Debug, Default, Structural)]
pub enum EagleArtilleryState {
    #[default]
    Loaded,
    HeadDown,
    Unloaded,
}

impl DefenceState for EagleArtilleryState {
    open spec fn suffix(self) -> Seq<char> {
        match self {
            EagleArtilleryState::Loaded => ""@,
            EagleArtilleryState::HeadDown => "_Head_Down"@,
            EagleArtilleryState::Unloaded => "_Unloaded"@,
        }
    }

    fn get_as_suffix(self) -> (s: &'static str) {
        match self {
            EagleArtilleryState::Loaded => "",
            EagleArtilleryState::HeadDown => "_Head_Down",
            EagleArtilleryState::Unloaded => "_Unloaded",
        }
    }
}

/// Whether a spell factory is brewing.
#[derive(Copy, Clone, Eq, PartialEq, Debug, Default, Structural)]
pub enum SpellFactoryState {
    #[default]
    Inactive,
    Active,
}

impl DefenceState for SpellFactoryState {
    open spec fn suffix(self) -> Seq<char> {
        match self {
            SpellFactoryState::Inactive => ""@,
            SpellFactoryState::Active => "_Active"@,
        }
    }

    fn get_as_suffix(self) -> (s: &'static str) {
        match self {
            SpellFactoryState::Inactive => "",
            SpellFactoryState::Active => "_Active",
        }
    }
}

/// How full a collector or a storage is.
#[derive(Copy, Clone, Eq, PartialEq, Debug, Default, Structural)]
pub enum ContainerState {
    #[default]
    Empty,
}

impl DefenceState for ContainerState {
    open spec fn suffix(self) -> Seq<char> {
        match self {
            ContainerState::Empty => ""@,
        }
    }

    fn get_as_suffix(self) -> (s: &'static str) {
        match self {
            ContainerState::Empty => "",
        }
    }
}

/// Whether a bomb is armed.
#[derive(Copy, Clone, Eq, PartialEq, Debug, Default, Structural)]
pub enum ExplosiveState {
    #[default]
    Armed,
    Unarmed,
}

impl DefenceState for ExplosiveState {
    open spec fn suffix(self) -> Seq<char> {
        match self {
            ExplosiveState::Armed => ""@,
            ExplosiveState::Unarmed => "_unarmed"@,
        }
    }

    fn get_as_suffix(self) -> (s: &'static str) {
        match self {
            ExplosiveState::Armed => "",
            ExplosiveState::Unarmed => "_unarmed",
        }
    }
}

/// The mode and the charge of an inferno tower.
#[derive(Copy, Clone, Eq, PartialEq, Debug, Structural)]
pub enum InfernoState {
    Multi,
    MultiDepleted,
    Single,
    SingleDepleted,
}

impl DefenceState for InfernoState {
    open spec fn suffix(self) -> Seq<char> {
        match self {
            InfernoState::Multi => "_Multi"@,
            InfernoState::MultiDepleted => "_Multi_Depleted"@,
            InfernoState::Single => "_Single"@,
            InfernoState::SingleDepleted => "_Single_Depleted"@,
        }
    }

    fn get_as_suffix(self) -> (s: &'static str) {
        match self {
            InfernoState::Multi => "_Multi",
            InfernoState::MultiDepleted => "_Multi_Depleted",
            InfernoState::Single => "_Single",
            InfernoState::SingleDepleted => "_Single_Depleted",
        }
    }
}

/// Whether a scattershot is loaded.
#[derive(Copy, Clone, Eq, PartialEq, Debug, Default, Structural)]
pub enum ScattershotState {
    #[default]
    Regular,
    Depleted,
}

impl DefenceState for ScattershotState {
    open spec fn suffix(self) -> Seq<char> {
        match self {
            ScattershotState::Regular => ""@,
            ScattershotState::Depleted => "_Depleted"@,
        }
    }

    fn get_as_suffix(self) -> (s: &'static str) {
        match self {
            ScattershotState::Regular => "",
            ScattershotState::Depleted => "_Depleted",
        }
    }
}

/// Whether a building fights back.
#[derive(Copy, Clone, Eq, PartialEq, Debug, Structural)]
pub enum BuildingCharacteristics {
    /// The building takes no part in the defence.
    Passive,
    /// The building defends the village.
    Defense,
}

/// The kinds of building.
#[derive(Copy, Clone, Eq, PartialEq, Debug, Structural)]
pub enum BuildingType {
    AirBomb,
    ArcherTower(ArcherDefenceState),
    ArmyCamp,
    Barracks,
    Blacksmith,
    BuilderHut,
    Cannon(MissileDefenceState),
    DarkBarracks,
    DarkElixirDrill,
    DarkElixirStorage,
    DarkSpellFactory(SpellFactoryState),
    EagleArtillery(EagleArtilleryState),
    ElixirCollector(ContainerState),
    ElixirStorage(ContainerState),
    GiantBomb(ExplosiveState),
    GoldMine,
    GoldStorage(ContainerState),
    HiddenTesla,
    InfernoTower(InfernoState),
    Laboratory,
    Mortar(MissileDefenceState),
    PetHouse,
    Scattershot(ScattershotState),
    SeekingAirMine,
    SpellFactory(SpellFactoryState),
    TownHall,
    WizardTower,
    Workshop,
}

/// The folder that holds the pictures of the buildings.
pub const BUILDING_ASSETS_FOLDER: &'static str = "datasets/buildings/images/train";

/// The lowest and the highest level at which a kind of building exists.
#[derive(Copy, Clone, Eq, PartialEq, Debug, Structural)]
pub struct LevelRange {
    pub lowest: u8,
    pub highest: u8,
}

impl LevelRange {
    pub open spec fn holds(&self, level: u8) -> bool {
        self.lowest <= level <= self.highest
    }

    /// Whether `level` lies in the range, both ends included.
    #[verifier::when_used_as_spec(holds)]
    pub fn contains(&self, level: u8) -> (inside: bool)
        ensures
            inside == self.holds(level),
    {
        self.lowest <= level && level <= self.highest
    }
}

impl BuildingType {
    /// The name of the kind, as it stands in the names of its pictures.
    pub open spec fn name_chars(&self) -> Seq<char> {
        match self {
            BuildingType::AirBomb => "Air_Bomb"@,
            BuildingType::ArcherTower(_) => "Archer_Tower"@,
            BuildingType::ArmyCamp => "Army_Camp"@,
            BuildingType::Barracks => "Barracks"@,
            BuildingType::Blacksmith => "Blacksmith"@,
            BuildingType::BuilderHut => "Builders_Hut"@,
            BuildingType::Cannon(_) => "Cannon"@,
            BuildingType::DarkBarracks => "Dark_Barracks"@,
            BuildingType::DarkElixirDrill => "Dark_Elixir_Drill"@,
            BuildingType::DarkElixirStorage => "Dark_Elixir_Storage"@,
            BuildingType::DarkSpellFactory(_) => "Dark_Spell_Factory"@,
            BuildingType::EagleArtillery(_) => "Eagle_Artillery"@,
            BuildingType::ElixirCollector(_) => "Elixir_Collector"@,
            BuildingType::ElixirStorage(_) => "Elixir_Storage"@,
            BuildingType::GiantBomb(_) => "Giant_Bomb"@,
            BuildingType::GoldMine => "Gold_Mine"@,
            BuildingType::GoldStorage(_) => "Gold_Storage"@,
            BuildingType::HiddenTesla => "Hidden_Tesla"@,
            BuildingType::InfernoTower(_) => "Inferno_Tower"@,
            BuildingType::Laboratory => "Laboratory"@,
            BuildingType::Mortar(_) => "Mortar"@,
            BuildingType::PetHouse => "Pet_House"@,
            BuildingType::Scattershot(_) => "Scattershot"@,
            BuildingType::SeekingAirMine => "Seeking_Air_Mine"@,
            BuildingType::SpellFactory(_) => "Spell_Factory"@,
            BuildingType::TownHall => "Town_Hall"@,
            BuildingType::WizardTower => "Wizard_Tower"@,
            BuildingType::Workshop => "Workshop"@,
        }
    }

    /// The name of the kind, as it stands in the names of its pictures.
    pub fn name(&self) -> (name: &'static str)
        ensures
            name@ == self.name_chars(),
    {
        match self {
            BuildingType::AirBomb => "Air_Bomb",
            BuildingType::ArcherTower(_) => "Archer_Tower",
            BuildingType::ArmyCamp => "Army_Camp",
            BuildingType::Barracks => "Barracks",
            BuildingType::Blacksmith => "Blacksmith",
            BuildingType::BuilderHut => "Builders_Hut",
            BuildingType::Cannon(_) => "Cannon",
            BuildingType::DarkBarracks => "Dark_Barracks",
            BuildingType::DarkElixirDrill => "Dark_Elixir_Drill",
            BuildingType::DarkElixirStorage => "Dark_Elixir_Storage",
            BuildingType::DarkSpellFactory(_) => "Dark_Spell_Factory",
            BuildingType::EagleArtillery(_) => "Eagle_Artillery",
            BuildingType::ElixirCollector(_) => "Elixir_Collector",
            BuildingType::ElixirStorage(_) => "Elixir_Storage",
            BuildingType::GiantBomb(_) => "Giant_Bomb",
            BuildingType::GoldMine => "Gold_Mine",
            BuildingType::GoldStorage(_) => "Gold_Storage",
            BuildingType::HiddenTesla => "Hidden_Tesla",
            BuildingType::InfernoTower(_) => "Inferno_Tower",
            BuildingType::Laboratory => "Laboratory",
            BuildingType::Mortar(_) => "Mortar",
            BuildingType::PetHouse => "Pet_House",
            BuildingType::Scattershot(_) => "Scattershot",
            BuildingType::SeekingAirMine => "Seeking_Air_Mine",
            BuildingType::SpellFactory(_) => "Spell_Factory",
            BuildingType::TownHall => "Town_Hall",
            BuildingType::WizardTower => "Wizard_Tower",
            BuildingType::Workshop => "Workshop",
        }
    }

    /// The footprint that the kind reserves on the grid.
    pub open spec fn footprint(&self) -> PlotSize {
        match self {
            BuildingType::AirBomb => PlotSize::X1Invisible,
            BuildingType::ArcherTower(_) => PlotSize::X3,
            BuildingType::ArmyCamp => PlotSize::X4,
            BuildingType::Barracks => PlotSize::X3,
            BuildingType::Blacksmith => PlotSize::X3,
            BuildingType::BuilderHut => PlotSize::X2,
            BuildingType::Cannon(_) => PlotSize::X3,
            BuildingType::DarkBarracks => PlotSize::X3,
            BuildingType::DarkElixirDrill => PlotSize::X3,
            BuildingType::DarkElixirStorage => PlotSize::X3,
            BuildingType::DarkSpellFactory(_) => PlotSize::X3,
            BuildingType::EagleArtillery(_) => PlotSize::X4,
            BuildingType::ElixirCollector(_) => PlotSize::X3,
            BuildingType::ElixirStorage(_) => PlotSize::X3,
            BuildingType::GiantBomb(_) => PlotSize::X2Invisible,
            BuildingType::GoldMine => PlotSize::X3,
            BuildingType::GoldStorage(_) => PlotSize::X3,
            BuildingType::HiddenTesla => PlotSize::X1Invisible,
            BuildingType::InfernoTower(_) => PlotSize::X3,
            BuildingType::Laboratory => PlotSize::X3,
            BuildingType::Mortar(_) => PlotSize::X3,
            BuildingType::PetHouse => PlotSize::X3,
            BuildingType::Scattershot(_) => PlotSize::X3,
            BuildingType::SeekingAirMine => PlotSize::X1Invisible,
            BuildingType::SpellFactory(_) => PlotSize::X3,
            BuildingType::TownHall => PlotSize::X4,
            BuildingType::WizardTower => PlotSize::X3,
            BuildingType::Workshop => PlotSize::X4,
        }
    }

    /// The footprint that the kind reserves on the grid.
    #[verifier::when_used_as_spec(footprint)]
    pub fn plot_size(&self) -> (size: PlotSize)
        ensures
            size == self.footprint(),
    {
        match self {
            BuildingType::AirBomb => PlotSize::X1Invisible,
            BuildingType::ArcherTower(_) => PlotSize::X3,
            BuildingType::ArmyCamp => PlotSize::X4,
            BuildingType::Barracks => PlotSize::X3,
            BuildingType::Blacksmith => PlotSize::X3,
            BuildingType::BuilderHut => PlotSize::X2,
            BuildingType::Cannon(_) => PlotSize::X3,
            BuildingType::DarkBarracks => PlotSize::X3,
            BuildingType::DarkElixirDrill => PlotSize::X3,
            BuildingType::DarkElixirStorage => PlotSize::X3,
            BuildingType::DarkSpellFactory(_) => PlotSize::X3,
            BuildingType::EagleArtillery(_) => PlotSize::X4,
            BuildingType::ElixirCollector(_) => PlotSize::X3,
            BuildingType::ElixirStorage(_) => PlotSize::X3,
            BuildingType::GiantBomb(_) => PlotSize::X2Invisible,
            BuildingType::GoldMine => PlotSize::X3,
            BuildingType::GoldStorage(_) => PlotSize::X3,
            BuildingType::HiddenTesla => PlotSize::X1Invisible,
            BuildingType::InfernoTower(_) => PlotSize::X3,
            BuildingType::Laboratory => PlotSize::X3,
            BuildingType::Mortar(_) => PlotSize::X3,
            BuildingType::PetHouse => PlotSize::X3,
            BuildingType::Scattershot(_) => PlotSize::X3,
            BuildingType::SeekingAirMine => PlotSize::X1Invisible,
            BuildingType::SpellFactory(_) => PlotSize::X3,
            BuildingType::TownHall => PlotSize::X4,
            BuildingType::WizardTower => PlotSize::X3,
            BuildingType::Workshop => PlotSize::X4,
        }
    }

    /// The size of the building itself, which may be smaller than the
    /// footprint it reserves.
    pub fn self_size(&self) -> (size: PlotSize)
        ensures
            size == match self {
                BuildingType::ArcherTower(_) => PlotSize::X2,
                BuildingType::ArmyCamp => PlotSize::X2,
                BuildingType::Cannon(_) => PlotSize::X3,
                BuildingType::EagleArtillery(_) => PlotSize::X3,
                BuildingType::ElixirCollector(_) => PlotSize::X2,
                BuildingType::InfernoTower(_) => PlotSize::X2,
                BuildingType::SeekingAirMine => PlotSize::X1Invisible,
                BuildingType::TownHall => PlotSize::X3,
                _ => self.footprint(),
            },
    {
        match self {
            BuildingType::ArcherTower(_) => PlotSize::X2,
            BuildingType::ArmyCamp => PlotSize::X2,
            BuildingType::Cannon(_) => PlotSize::X3,
            BuildingType::EagleArtillery(_) => PlotSize::X3,
            BuildingType::ElixirCollector(_) => PlotSize::X2,
            BuildingType::InfernoTower(_) => PlotSize::X2,
            BuildingType::SeekingAirMine => PlotSize::X1Invisible,
            BuildingType::TownHall => PlotSize::X3,
            _ => self.plot_size(),
        }
    }

    /// The levels at which the kind exists.
    pub open spec fn levels(&self) -> LevelRange {
        match self {
            BuildingType::AirBomb => LevelRange { lowest: 9, highest: 9 },
            BuildingType::ArcherTower(_) => LevelRange { lowest: 1, highest: 21 },
            BuildingType::ArmyCamp => LevelRange { lowest: 3, highest: 12 },
            BuildingType::Barracks => LevelRange { lowest: 3, highest: 17 },
            BuildingType::Blacksmith => LevelRange { lowest: 5, highest: 5 },
            BuildingType::BuilderHut => LevelRange { lowest: 2, highest: 6 },
            BuildingType::Cannon(_) => LevelRange { lowest: 1, highest: 21 },
            BuildingType::DarkBarracks => LevelRange { lowest: 3, highest: 11 },
            BuildingType::DarkElixirDrill => LevelRange { lowest: 1, highest: 10 },
            BuildingType::DarkElixirStorage => LevelRange { lowest: 3, highest: 11 },
            BuildingType::DarkSpellFactory(_) => LevelRange { lowest: 2, highest: 6 },
            BuildingType::EagleArtillery(_) => LevelRange { lowest: 2, highest: 7 },
            BuildingType::ElixirCollector(_) => LevelRange { lowest: 1, highest: 16 },
            BuildingType::ElixirStorage(_) => LevelRange { lowest: 3, highest: 17 },
            BuildingType::GiantBomb(_) => LevelRange { lowest: 5, highest: 5 },
            BuildingType::GoldMine => LevelRange { lowest: 1, highest: 16 },
            BuildingType::GoldStorage(_) => LevelRange { lowest: 3, highest: 17 },
            BuildingType::HiddenTesla => LevelRange { lowest: 1, highest: 15 },
            BuildingType::InfernoTower(_) => LevelRange { lowest: 1, highest: 10 },
            BuildingType::Laboratory => LevelRange { lowest: 3, highest: 14 },
            BuildingType::Mortar(_) => LevelRange { lowest: 1, highest: 16 },
            BuildingType::PetHouse => LevelRange { lowest: 3, highest: 10 },
            BuildingType::Scattershot(_) => LevelRange { lowest: 3, highest: 5 },
            BuildingType::SeekingAirMine => LevelRange { lowest: 5, highest: 5 },
            BuildingType::SpellFactory(_) => LevelRange { lowest: 1, highest: 7 },
            BuildingType::TownHall => LevelRange { lowest: 3, highest: 16 },
            BuildingType::WizardTower => LevelRange { lowest: 3, highest: 16 },
            BuildingType::Workshop => LevelRange { lowest: 3, highest: 7 },
        }
    }

    /// The levels at which the kind exists.
    #[verifier::when_used_as_spec(levels)]
    pub fn level_range(&self) -> (range: LevelRange)
        ensures
            range == self.levels(),
            range.lowest <= range.highest,
    {
        match self {
            BuildingType::AirBomb => LevelRange { lowest: 9, highest: 9 },
            BuildingType::ArcherTower(_) => LevelRange { lowest: 1, highest: 21 },
            BuildingType::ArmyCamp => LevelRange { lowest: 3, highest: 12 },
            BuildingType::Barracks => LevelRange { lowest: 3, highest: 17 },
            BuildingType::Blacksmith => LevelRange { lowest: 5, highest: 5 },
            BuildingType::BuilderHut => LevelRange { lowest: 2, highest: 6 },
            BuildingType::Cannon(_) => LevelRange { lowest: 1, highest: 21 },
            BuildingType::DarkBarracks => LevelRange { lowest: 3, highest: 11 },
            BuildingType::DarkElixirDrill => LevelRange { lowest: 1, highest: 10 },
            BuildingType::DarkElixirStorage => LevelRange { lowest: 3, highest: 11 },
            BuildingType::DarkSpellFactory(_) => LevelRange { lowest: 2, highest: 6 },
            BuildingType::EagleArtillery(_) => LevelRange { lowest: 2, highest: 7 },
            BuildingType::ElixirCollector(_) => LevelRange { lowest: 1, highest: 16 },
            BuildingType::ElixirStorage(_) => LevelRange { lowest: 3, highest: 17 },
            BuildingType::GiantBomb(_) => LevelRange { lowest: 5, highest: 5 },
            BuildingType::GoldMine => LevelRange { lowest: 1, highest: 16 },
            BuildingType::GoldStorage(_) => LevelRange { lowest: 3, highest: 17 },
            BuildingType::HiddenTesla => LevelRange { lowest: 1, highest: 15 },
            BuildingType::InfernoTower(_) => LevelRange { lowest: 1, highest: 10 },
            BuildingType::Laboratory => LevelRange { lowest: 3, highest: 14 },
            BuildingType::Mortar(_) => LevelRange { lowest: 1, highest: 16 },
            BuildingType::PetHouse => LevelRange { lowest: 3, highest: 10 },
            BuildingType::Scattershot(_) => LevelRange { lowest: 3, highest: 5 },
            BuildingType::SeekingAirMine => LevelRange { lowest: 5, highest: 5 },
            BuildingType::SpellFactory(_) => LevelRange { lowest: 1, highest: 7 },
            BuildingType::TownHall => LevelRange { lowest: 3, highest: 16 },
            BuildingType::WizardTower => LevelRange { lowest: 3, highest: 16 },
            BuildingType::Workshop => LevelRange { lowest: 3, highest: 7 },
        }
    }

    /// The suffix that the state of the building adds to the name of its
    /// picture; empty for a kind without states.
    pub open spec fn state_suffix(&self) -> Seq<char> {
        match self {
            BuildingType::ArcherTower(state) => state.suffix(),
            BuildingType::Cannon(state) => state.suffix(),
            BuildingType::DarkSpellFactory(state) => state.suffix(),
            BuildingType::EagleArtillery(state) => state.suffix(),
            BuildingType::ElixirCollector(state) => state.suffix(),
            BuildingType::ElixirStorage(state) => state.suffix(),
            BuildingType::GiantBomb(state) => state.suffix(),
            BuildingType::GoldStorage(state) => state.suffix(),
            BuildingType::InfernoTower(state) => state.suffix(),
            BuildingType::Mortar(state) => state.suffix(),
            BuildingType::Scattershot(state) => state.suffix(),
            BuildingType::SpellFactory(state) => state.suffix(),
            _ => Seq::empty(),
        }
    }

    /// The name of the picture of the kind at `level`.
    ///
    /// It is the kind's name, the level in decimal, the suffix of the state
    /// and `.png`. Two cases differ: a builder's hut of level 1 carries no
    /// level, and a town hall of level 12 to 15 carries the suffix `-1`.
    pub open spec fn file_name(&self, level: u8) -> Seq<char> {
        if *self == BuildingType::BuilderHut && level == 1 {
            self.name_chars() + ".png"@
        } else if *self == BuildingType::TownHall && 12 <= level < 16 {
            self.name_chars() + decimal(level as nat) + "-1"@ + ".png"@
        } else {
            self.name_chars() + decimal(level as nat) + self.state_suffix() + ".png"@
        }
    }

    /// The path of the picture of the kind at `level`.
    pub fn get_file_path(&self, level: u8) -> (path: String)
        ensures
            path@ == BUILDING_ASSETS_FOLDER@ + "/"@ + self.file_name(level),
    {
        let file_name = self.get_file_name(level);
        let path = String::from_str(BUILDING_ASSETS_FOLDER).concat("/").concat(file_name.as_str());
        assert(path@ =~= BUILDING_ASSETS_FOLDER@ + "/"@ + self.file_name(level));
        path
    }

    /// The name of the picture of the kind at `level`.
    pub fn get_file_name(&self, level: u8) -> (file_name: String)
        ensures
            file_name@ == self.file_name(level),
    {
        proof {
            reveal_strlit("");
        }
        let file_name = match self {
            BuildingType::ArcherTower(state) => self.make_file_name(Some(level), Some(*state)),
            BuildingType::Cannon(state) => self.make_file_name(Some(level), Some(*state)),
            BuildingType::DarkSpellFactory(state) => self.make_file_name(Some(level), Some(*state)),
            BuildingType::EagleArtillery(state) => self.make_file_name(Some(level), Some(*state)),
            BuildingType::ElixirCollector(state) => self.make_file_name(Some(level), Some(*state)),
            BuildingType::ElixirStorage(state) => self.make_file_name(Some(level), Some(*state)),
            BuildingType::GiantBomb(state) => self.make_file_name(Some(level), Some(*state)),
            BuildingType::GoldStorage(state) => self.make_file_name(Some(level), Some(*state)),
            BuildingType::InfernoTower(state) => self.make_file_name(Some(level), Some(*state)),
            BuildingType::Mortar(state) => self.make_file_name(Some(level), Some(*state)),
            BuildingType::Scattershot(state) => self.make_file_name(Some(level), Some(*state)),
            BuildingType::SpellFactory(state) => self.make_file_name(Some(level), Some(*state)),
            BuildingType::BuilderHut => {
                if level == 1 {
                    self.make_file_name(None, None::<ArcherDefenceState>)
                } else {
                    self.make_file_name(Some(level), None::<ArcherDefenceState>)
                }
            },
            BuildingType::TownHall => {
                if level >= 12 && level < 16 {
                    self.make_file_name(Some(level), Some("-1"))
                } else {
                    self.make_file_name(Some(level), None::<ArcherDefenceState>)
                }
            },
            _ => self.make_file_name(Some(level), None::<ArcherDefenceState>),
        };
        assert(file_name@ =~= self.file_name(level));
        file_name
    }

    /// The name, the level if one is given, the suffix if one is given, and
    /// `.png`.
    pub fn make_file_name<S: DefenceState>(&self, level: Option<u8>, state: Option<S>) -> (file_name:
        String)
        ensures
            file_name@ == self.name_chars() + (match level {
                Some(l) => decimal(l as nat),
                None => Seq::empty(),
            }) + (match state {
                Some(s) => s.suffix(),
                None => Seq::empty(),
            }) + ".png"@,
    {
        let mut file_name = String::from_str(self.name());
        match level {
            Some(l) => {
                let digits = decimal_string(l);
                file_name.append(digits.as_str());
            },
            None => {},
        }
        match state {
            Some(s) => {
                file_name.append(s.get_as_suffix());
            },
            None => {},
        }
        file_name.append(".png");
        assert(file_name@ =~= self.name_chars() + (match level {
            Some(l) => decimal(l as nat),
            None => Seq::empty(),
        }) + (match state {
            Some(s) => s.suffix(),
            None => Seq::empty(),
        }) + ".png"@);
        file_name
    }
}

/// The character of a decimal digit.
pub open spec fn digit_char(d: nat) -> char
    recommends
        d < 10,
{
    if d == 0 {
        '0'
    } else if d == 1 {
        '1'
    } else if d == 2 {
        '2'
    } else if d == 3 {
        '3'
    } else if d == 4 {
        '4'
    } else if d == 5 {
        '5'
    } else if d == 6 {
        '6'
    } else if d == 7 {
        '7'
    } else if d == 8 {
        '8'
    } else {
        '9'
    }
}

/// The decimal digits of `n`, without leading zeros; `0` is the one digit `0`.
pub open spec fn decimal(n: nat) -> Seq<char>
    decreases n,
{
    if n < 10 {
        seq![digit_char(n)]
    } else {
        decimal(n / 10).push(digit_char(n % 10))
    }
}

/// The one-character string of a decimal digit.
fn digit_str(d: u8) -> (s: &'static str)
    requires
        d < 10,
    ensures
        s@ == seq![digit_char(d as nat)],
{
    proof {
        reveal_strlit("0");
        reveal_strlit("1");
        reveal_strlit("2");
        reveal_strlit("3");
        reveal_strlit("4");
        reveal_strlit("5");
        reveal_strlit("6");
        reveal_strlit("7");
        reveal_strlit("8");
        reveal_strlit("9");
    }
    let s = if d == 0 {
        "0"
    } else if d == 1 {
        "1"
    } else if d == 2 {
        "2"
    } else if d == 3 {
        "3"
    } else if d == 4 {
        "4"
    } else if d == 5 {
        "5"
    } else if d == 6 {
        "6"
    } else if d == 7 {
        "7"
    } else if d == 8 {
        "8"
    } else {
        "9"
    };
    assert(s@ =~= seq![digit_char(d as nat)]);
    s
}

/// A level written in decimal.
pub fn decimal_string(n: u8) -> (s: String)
    ensures
        s@ == decimal(n as nat),
{
    let mut s = String::new();
    if n >= 100 {
        s.append(digit_str(n / 100));
    }
    if n >= 10 {
        s.append(digit_str((n / 10) % 10));
    }
    s.append(digit_str(n % 10));
    proof {
        reveal_with_fuel(decimal, 3);
        assert(s@ =~= decimal(n as nat));
    }
    s
}

/// A building: its kind, its level and whether it defends the village.
#[derive(Copy, Clone, Eq, PartialEq, Debug, Structural)]
pub struct Building {
    pub building_type: BuildingType,
    pub level: u8,
    pub characteristics: BuildingCharacteristics,
}

} // verus!
