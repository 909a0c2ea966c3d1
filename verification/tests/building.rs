use coc_base_generator::building::{
    decimal_string, ArcherDefenceState, BuildingType, ContainerState, DefenceState,
    EagleArtilleryState, ExplosiveState, InfernoState, LevelRange, MissileDefenceState, PlotSize,
    ScattershotState, SpellFactoryState, BUILDING_ASSETS_FOLDER,
};

#[test]
fn file_name_is_name_level_and_state() {
    assert_eq!(BuildingType::ArmyCamp.get_file_name(3), "Army_Camp3.png");
    assert_eq!(BuildingType::ArcherTower(ArcherDefenceState::Regular).get_file_name(12), "Archer_Tower12.png");
    assert_eq!(BuildingType::Cannon(MissileDefenceState::Regular).get_file_name(21), "Cannon21.png");
    assert_eq!(BuildingType::Mortar(MissileDefenceState::Regular).get_file_name(13), "Mortar13.png");
    assert_eq!(BuildingType::HiddenTesla.get_file_name(9), "Hidden_Tesla9.png");
    assert_eq!(BuildingType::ElixirStorage(ContainerState::Empty).get_file_name(7), "Elixir_Storage7.png");
}

#[test]
fn file_name_carries_the_state() {
    assert_eq!(
        BuildingType::EagleArtillery(EagleArtilleryState::HeadDown).get_file_name(3),
        "Eagle_Artillery3_Head_Down.png"
    );
    assert_eq!(
        BuildingType::EagleArtillery(EagleArtilleryState::Unloaded).get_file_name(7),
        "Eagle_Artillery7_Unloaded.png"
    );
    assert_eq!(
        BuildingType::EagleArtillery(EagleArtilleryState::Loaded).get_file_name(2),
        "Eagle_Artillery2.png"
    );
    assert_eq!(
        BuildingType::DarkSpellFactory(SpellFactoryState::Active).get_file_name(6),
        "Dark_Spell_Factory6_Active.png"
    );
    assert_eq!(
        BuildingType::SpellFactory(SpellFactoryState::Inactive).get_file_name(1),
        "Spell_Factory1.png"
    );
    assert_eq!(BuildingType::GiantBomb(ExplosiveState::Unarmed).get_file_name(5), "Giant_Bomb5_unarmed.png");
    assert_eq!(BuildingType::GiantBomb(ExplosiveState::Armed).get_file_name(5), "Giant_Bomb5.png");
    assert_eq!(
        BuildingType::InfernoTower(InfernoState::Multi).get_file_name(10),
        "Inferno_Tower10_Multi.png"
    );
    assert_eq!(
        BuildingType::InfernoTower(InfernoState::MultiDepleted).get_file_name(1),
        "Inferno_Tower1_Multi_Depleted.png"
    );
    assert_eq!(
        BuildingType::InfernoTower(InfernoState::Single).get_file_name(4),
        "Inferno_Tower4_Single.png"
    );
    assert_eq!(
        BuildingType::InfernoTower(InfernoState::SingleDepleted).get_file_name(4),
        "Inferno_Tower4_Single_Depleted.png"
    );
    assert_eq!(
        BuildingType::Scattershot(ScattershotState::Depleted).get_file_name(3),
        "Scattershot3_Depleted.png"
    );
    assert_eq!(BuildingType::Scattershot(ScattershotState::Regular).get_file_name(3), "Scattershot3.png");
}

#[test]
fn builders_hut_of_level_one_has_no_level_in_its_file_name() {
    assert_eq!(BuildingType::BuilderHut.get_file_name(1), "Builders_Hut.png");
    assert_eq!(BuildingType::BuilderHut.get_file_name(2), "Builders_Hut2.png");
    assert_eq!(BuildingType::BuilderHut.get_file_name(0), "Builders_Hut0.png");
    assert_eq!(BuildingType::BuilderHut.get_file_name(6), "Builders_Hut6.png");
}

#[test]
fn town_hall_from_level_twelve_to_fifteen_has_a_suffix() {
    assert_eq!(BuildingType::TownHall.get_file_name(11), "Town_Hall11.png");
    assert_eq!(BuildingType::TownHall.get_file_name(12), "Town_Hall12-1.png");
    assert_eq!(BuildingType::TownHall.get_file_name(13), "Town_Hall13-1.png");
    assert_eq!(BuildingType::TownHall.get_file_name(15), "Town_Hall15-1.png");
    assert_eq!(BuildingType::TownHall.get_file_name(16), "Town_Hall16.png");
    assert_eq!(BuildingType::TownHall.get_file_name(3), "Town_Hall3.png");
}

#[test]
fn file_path_lies_in_the_assets_folder() {
    assert_eq!(BUILDING_ASSETS_FOLDER, "datasets/buildings/images/train");
    assert_eq!(
        BuildingType::TownHall.get_file_path(12),
        "datasets/buildings/images/train/Town_Hall12-1.png"
    );
    assert_eq!(
        BuildingType::BuilderHut.get_file_path(1),
        "datasets/buildings/images/train/Builders_Hut.png"
    );
    assert_eq!(
        BuildingType::GoldStorage(ContainerState::Empty).get_file_path(17),
        "datasets/buildings/images/train/Gold_Storage17.png"
    );
}

#[test]
fn make_file_name_puts_the_parts_together() {
    let kind = BuildingType::Laboratory;
    assert_eq!(kind.make_file_name(None, None::<ArcherDefenceState>), "Laboratory.png");
    assert_eq!(kind.make_file_name(Some(14), None::<ArcherDefenceState>), "Laboratory14.png");
    assert_eq!(kind.make_file_name(Some(14), Some("-x")), "Laboratory14-x.png");
    assert_eq!(kind.make_file_name(None, Some(InfernoState::Single)), "Laboratory_Single.png");
    assert_eq!(kind.make_file_name(Some(0), Some(ExplosiveState::Unarmed)), "Laboratory0_unarmed.png");
}

#[test]
fn levels_are_written_in_decimal() {
    assert_eq!(decimal_string(0), "0");
    assert_eq!(decimal_string(7), "7");
    assert_eq!(decimal_string(9), "9");
    assert_eq!(decimal_string(10), "10");
    assert_eq!(decimal_string(42), "42");
    assert_eq!(decimal_string(99), "99");
    assert_eq!(decimal_string(100), "100");
    assert_eq!(decimal_string(101), "101");
    assert_eq!(decimal_string(110), "110");
    assert_eq!(decimal_string(200), "200");
    assert_eq!(decimal_string(255), "255");
    for level in 0..=255u8 {
        assert_eq!(decimal_string(level), level.to_string());
    }
}

#[test]
fn state_suffixes() {
    assert_eq!(ArcherDefenceState::Regular.get_as_suffix(), "");
    assert_eq!(MissileDefenceState::Regular.get_as_suffix(), "");
    assert_eq!(ContainerState::Empty.get_as_suffix(), "");
    assert_eq!(EagleArtilleryState::Loaded.get_as_suffix(), "");
    assert_eq!(EagleArtilleryState::HeadDown.get_as_suffix(), "_Head_Down");
    assert_eq!(EagleArtilleryState::Unloaded.get_as_suffix(), "_Unloaded");
    assert_eq!(SpellFactoryState::Inactive.get_as_suffix(), "");
    assert_eq!(SpellFactoryState::Active.get_as_suffix(), "_Active");
    assert_eq!(ExplosiveState::Armed.get_as_suffix(), "");
    assert_eq!(ExplosiveState::Unarmed.get_as_suffix(), "_unarmed");
    assert_eq!(InfernoState::Multi.get_as_suffix(), "_Multi");
    assert_eq!(InfernoState::MultiDepleted.get_as_suffix(), "_Multi_Depleted");
    assert_eq!(InfernoState::Single.get_as_suffix(), "_Single");
    assert_eq!(InfernoState::SingleDepleted.get_as_suffix(), "_Single_Depleted");
    assert_eq!(ScattershotState::Regular.get_as_suffix(), "");
    assert_eq!(ScattershotState::Depleted.get_as_suffix(), "_Depleted");
    assert_eq!("-1".get_as_suffix(), "-1");
}

#[test]
fn default_states() {
    assert_eq!(ArcherDefenceState::default(), ArcherDefenceState::Regular);
    assert_eq!(MissileDefenceState::default(), MissileDefenceState::Regular);
    assert_eq!(EagleArtilleryState::default(), EagleArtilleryState::Loaded);
    assert_eq!(SpellFactoryState::default(), SpellFactoryState::Inactive);
    assert_eq!(ContainerState::default(), ContainerState::Empty);
    assert_eq!(ExplosiveState::default(), ExplosiveState::Armed);
    assert_eq!(ScattershotState::default(), ScattershotState::Regular);
}

#[test]
fn names_of_the_kinds() {
    assert_eq!(BuildingType::AirBomb.name(), "Air_Bomb");
    assert_eq!(BuildingType::BuilderHut.name(), "Builders_Hut");
    assert_eq!(BuildingType::DarkElixirDrill.name(), "Dark_Elixir_Drill");
    assert_eq!(BuildingType::SeekingAirMine.name(), "Seeking_Air_Mine");
    assert_eq!(BuildingType::TownHall.name(), "Town_Hall");
    assert_eq!(BuildingType::Workshop.name(), "Workshop");
    assert_eq!(BuildingType::WizardTower.name(), "Wizard_Tower");
    assert_eq!(BuildingType::PetHouse.name(), "Pet_House");
}

#[test]
fn footprints_of_the_kinds() {
    assert_eq!(BuildingType::AirBomb.plot_size(), PlotSize::X1Invisible);
    assert_eq!(BuildingType::HiddenTesla.plot_size(), PlotSize::X1Invisible);
    assert_eq!(BuildingType::BuilderHut.plot_size(), PlotSize::X2);
    assert_eq!(BuildingType::GiantBomb(ExplosiveState::Armed).plot_size(), PlotSize::X2Invisible);
    assert_eq!(BuildingType::Barracks.plot_size(), PlotSize::X3);
    assert_eq!(BuildingType::ArcherTower(ArcherDefenceState::Regular).plot_size(), PlotSize::X3);
    assert_eq!(BuildingType::ArmyCamp.plot_size(), PlotSize::X4);
    assert_eq!(BuildingType::TownHall.plot_size(), PlotSize::X4);
    assert_eq!(BuildingType::EagleArtillery(EagleArtilleryState::Loaded).plot_size(), PlotSize::X4);
    assert_eq!(BuildingType::Workshop.plot_size(), PlotSize::X4);
}

#[test]
fn sizes_of_the_buildings_themselves() {
    assert_eq!(BuildingType::ArcherTower(ArcherDefenceState::Regular).self_size(), PlotSize::X2);
    assert_eq!(BuildingType::ArmyCamp.self_size(), PlotSize::X2);
    assert_eq!(BuildingType::Cannon(MissileDefenceState::Regular).self_size(), PlotSize::X3);
    assert_eq!(BuildingType::EagleArtillery(EagleArtilleryState::Loaded).self_size(), PlotSize::X3);
    assert_eq!(BuildingType::ElixirCollector(ContainerState::Empty).self_size(), PlotSize::X2);
    assert_eq!(BuildingType::InfernoTower(InfernoState::Multi).self_size(), PlotSize::X2);
    assert_eq!(BuildingType::SeekingAirMine.self_size(), PlotSize::X1Invisible);
    assert_eq!(BuildingType::TownHall.self_size(), PlotSize::X3);
    // the others are as large as their footprint
    assert_eq!(BuildingType::Barracks.self_size(), PlotSize::X3);
    assert_eq!(BuildingType::Workshop.self_size(), PlotSize::X4);
    assert_eq!(BuildingType::BuilderHut.self_size(), PlotSize::X2);
    assert_eq!(BuildingType::AirBomb.self_size(), PlotSize::X1Invisible);
}

#[test]
fn levels_of_the_kinds() {
    assert_eq!(BuildingType::AirBomb.level_range(), LevelRange { lowest: 9, highest: 9 });
    assert_eq!(
        BuildingType::ArcherTower(ArcherDefenceState::Regular).level_range(),
        LevelRange { lowest: 1, highest: 21 }
    );
    assert_eq!(BuildingType::TownHall.level_range(), LevelRange { lowest: 3, highest: 16 });
    assert_eq!(BuildingType::Workshop.level_range(), LevelRange { lowest: 3, highest: 7 });
    assert_eq!(
        BuildingType::Scattershot(ScattershotState::Regular).level_range(),
        LevelRange { lowest: 3, highest: 5 }
    );
    let range = BuildingType::BuilderHut.level_range();
    assert!(!range.contains(1));
    assert!(range.contains(2));
    assert!(range.contains(6));
    assert!(!range.contains(7));
}

#[test]
fn plot_sizes() {
    assert_eq!(PlotSize::X1Invisible.cell_diameter(), 1);
    assert_eq!(PlotSize::X2.cell_diameter(), 2);
    assert_eq!(PlotSize::X2Invisible.cell_diameter(), 2);
    assert_eq!(PlotSize::X3.cell_diameter(), 3);
    assert_eq!(PlotSize::X4.cell_diameter(), 4);
    assert_eq!(PlotSize::X1Invisible.plot_file(), None);
    assert_eq!(PlotSize::X2Invisible.plot_file(), None);
    assert_eq!(PlotSize::X2.plot_file(), Some("assets/plots/2x2.png"));
    assert_eq!(PlotSize::X3.plot_file(), Some("assets/plots/3x3.png"));
    assert_eq!(PlotSize::X4.plot_file(), Some("assets/plots/4x4.png"));
}
