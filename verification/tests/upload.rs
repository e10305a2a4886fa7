use particle_life_3d::upload::{plan_upload, UploadPlan};

#[test]
fn buffers_that_are_large_enough_are_written_in_place() {
    let plan = plan_upload(4096, 8192, 4000, 80);
    assert_eq!(
        plan,
        UploadPlan {
            recreate_particles: false,
            recreate_colors: false,
            particles_capacity: 4096,
            colors_capacity: 8192,
        }
    );
    assert!(!plan.rebuild_bind_group());
}

#[test]
fn buffers_of_exactly_the_needed_size_are_kept() {
    let plan = plan_upload(4000, 4000, 4000, 80);
    assert!(!plan.recreate_particles);
    assert!(!plan.recreate_colors);
    assert_eq!(plan.particles_capacity, 4000);
    assert_eq!(plan.colors_capacity, 4000);
    assert!(!plan.rebuild_bind_group());
}

#[test]
fn outgrown_particle_buffer_is_made_anew_with_the_length_of_the_data() {
    let plan = plan_upload(32, 40_000, 36_008, 80);
    assert_eq!(
        plan,
        UploadPlan {
            recreate_particles: true,
            recreate_colors: false,
            particles_capacity: 36_008,
            colors_capacity: 40_000,
        }
    );
    assert!(plan.rebuild_bind_group());
}

#[test]
fn colors_buffer_is_measured_against_the_particle_data() {
    // The colours would fit, but the particle data is larger than the
    // colours' buffer: the buffer is made anew with the colours' length.
    let plan = plan_upload(40_000, 96, 36_008, 80);
    assert_eq!(
        plan,
        UploadPlan {
            recreate_particles: false,
            recreate_colors: true,
            particles_capacity: 40_000,
            colors_capacity: 80,
        }
    );
    assert!(plan.rebuild_bind_group());
}

#[test]
fn colors_buffer_is_kept_while_the_particle_data_fits_in_it() {
    let plan = plan_upload(16, 16, 8, 4096);
    assert!(!plan.recreate_colors);
    assert_eq!(plan.colors_capacity, 16);
}

#[test]
fn both_buffers_are_made_anew_for_the_first_frame() {
    let plan = plan_upload(32, 16, 36_008, 96);
    assert_eq!(
        plan,
        UploadPlan {
            recreate_particles: true,
            recreate_colors: true,
            particles_capacity: 36_008,
            colors_capacity: 96,
        }
    );
    assert!(plan.rebuild_bind_group());
}

#[test]
fn empty_data_never_renews_a_buffer() {
    let plan = plan_upload(0, 0, 0, 0);
    assert!(!plan.recreate_particles);
    assert!(!plan.recreate_colors);
    assert_eq!(plan.particles_capacity, 0);
    assert_eq!(plan.colors_capacity, 0);
    assert!(!plan.rebuild_bind_group());
}

#[test]
fn bind_group_is_rebuilt_exactly_if_a_buffer_is_renewed() {
    for particles_capacity in [0usize, 10, 20] {
        for colors_capacity in [0usize, 10, 20] {
            for particles_len in [0usize, 5, 10, 15, 25] {
                let plan = plan_upload(particles_capacity, colors_capacity, particles_len, 7);
                assert_eq!(
                    plan.rebuild_bind_group(),
                    plan.recreate_particles || plan.recreate_colors
                );
                assert_eq!(plan.recreate_particles, particles_capacity < particles_len);
                assert_eq!(plan.recreate_colors, colors_capacity < particles_len);
            }
        }
    }
}
