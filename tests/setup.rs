use geom::setup::{
    checker_data, create_checker_texture, setup_shader, RenderingContext, Shader, ShaderError,
    ShaderInputLocation, ShaderProgram, ShaderType, Texture, TextureFlags, TextureFormat,
    UniformLayout, VertexAttributeLocation,
};

#[derive(Default)]
struct Recorder {
    next_id: u32,
    fail_compile: Option<ShaderType>,
    fail_link: bool,
    shader_types: Vec<(Shader, ShaderType)>,
    destroyed: Vec<Shader>,
    attributes: Vec<(String, VertexAttributeLocation)>,
    looked_up: Vec<String>,
    uploads: Vec<(Texture, Vec<u8>, u32, u32)>,
    flags: Vec<TextureFlags>,
}

impl RenderingContext for Recorder {
    fn create_shader(&mut self, shader_type: ShaderType) -> Shader {
        self.next_id += 1;
        self.shader_types.push((self.next_id, shader_type));
        self.next_id
    }

    fn compile_shader(&mut self, shader: Shader, _src: &str) -> Result<(), String> {
        let t = self.shader_types.iter().find(|(s, _)| *s == shader).unwrap().1;
        if Some(t) == self.fail_compile {
            Err("syntax error".to_string())
        } else {
            Ok(())
        }
    }

    fn create_shader_program(&mut self) -> ShaderProgram {
        self.next_id += 1;
        self.next_id
    }

    fn link_shader_program(
        &mut self,
        _program: ShaderProgram,
        _vertex_shader: Shader,
        _fragment_shader: Shader,
        attributes: &[(&str, VertexAttributeLocation)],
    ) -> Result<(), String> {
        self.attributes = attributes.iter().map(|(n, l)| (n.to_string(), *l)).collect();
        if self.fail_link {
            Err("unresolved symbol".to_string())
        } else {
            Ok(())
        }
    }

    fn destroy_shader(&mut self, shader: Shader) {
        self.destroyed.push(shader);
    }

    fn get_shader_input_location(
        &mut self,
        _program: ShaderProgram,
        name: &str,
    ) -> ShaderInputLocation {
        self.looked_up.push(name.to_string());
        self.looked_up.len() as i32
    }

    fn create_texture(&mut self, flags: TextureFlags) -> Texture {
        self.flags.push(flags);
        self.next_id += 1;
        self.next_id
    }

    fn upload_texture_data(
        &mut self,
        texture: Texture,
        data: &[u8],
        width: u32,
        height: u32,
        _format: TextureFormat,
    ) {
        self.uploads.push((texture, data.to_vec(), width, height));
    }
}

#[test]
fn checker_alternates_texels() {
    let data = checker_data(2, 2);
    assert_eq!(data.len(), 16);
    assert_eq!(&data[0..4], &[0, 0, 0, 0]);
    assert_eq!(&data[4..8], &[255, 255, 255, 255]);
    // Byte 8 is texel 2 in row 1: (2 + 1) % 2 == 1.
    assert_eq!(&data[8..12], &[255, 255, 255, 255]);
    assert_eq!(&data[12..16], &[0, 0, 0, 0]);
    assert!(checker_data(0, 5).is_empty());
    assert!(checker_data(5, 0).is_empty());
}

#[test]
fn checker_texture_is_uploaded() {
    let mut ctx = Recorder::default();
    let t = create_checker_texture(3, 2, &mut ctx);
    assert_eq!(ctx.uploads.len(), 1);
    assert_eq!(ctx.uploads[0].0, t);
    assert_eq!(ctx.uploads[0].1, checker_data(3, 2));
    assert_eq!((ctx.uploads[0].2, ctx.uploads[0].3), (3, 2));
    assert_eq!(ctx.flags, vec![TextureFlags { repeat: true, filter_nearest: true }]);
}

#[test]
fn uniform_layout_looks_up_every_uniform() {
    let mut ctx = Recorder::default();
    let layout = UniformLayout::new(&mut ctx, 7);
    assert_eq!(layout.u_color, 1);
    assert_eq!(layout.u_resolution, 9);
    assert_eq!(ctx.looked_up[0], "u_color");
    assert_eq!(ctx.looked_up[8], "u_resolution");
}

#[test]
fn shader_setup_links_and_cleans_up() {
    let mut ctx = Recorder::default();
    let (program, uniforms) = setup_shader(&mut ctx, "vs", "fs").unwrap();
    assert_eq!(program, 3);
    assert_eq!(uniforms.u_texture_0, 2);
    assert_eq!(ctx.destroyed, vec![1, 2]);
    assert_eq!(
        ctx.attributes,
        vec![
            ("a_position".to_string(), 0),
            ("a_normals".to_string(), 1),
            ("a_tex_coords".to_string(), 2)
        ]
    );
}

#[test]
fn shader_setup_reports_compile_errors() {
    let mut ctx = Recorder { fail_compile: Some(ShaderType::Fragment), ..Recorder::default() };
    assert_eq!(
        setup_shader(&mut ctx, "vs", "fs"),
        Err(ShaderError::FragmentShader("syntax error".to_string()))
    );
    assert!(ctx.destroyed.is_empty());
}

#[test]
fn shader_setup_reports_vertex_and_link_errors() {
    let mut ctx = Recorder { fail_compile: Some(ShaderType::Vertex), ..Recorder::default() };
    assert_eq!(
        setup_shader(&mut ctx, "vs", "fs"),
        Err(ShaderError::VertexShader("syntax error".to_string()))
    );
    let mut ctx = Recorder { fail_link: true, ..Recorder::default() };
    assert_eq!(
        setup_shader(&mut ctx, "vs", "fs"),
        Err(ShaderError::Link("unresolved symbol".to_string()))
    );
    assert!(ctx.looked_up.is_empty());
}
